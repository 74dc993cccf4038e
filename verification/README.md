# HugiMQ

A publish/subscribe broker and its load generators, with a verified core.

- `src/` is the library. Everything it decides or computes carries a contract that Verus proves:
  the wire formats, the rings, the routing of datagrams, the grouping and encoding of published
  messages, and the bookkeeping of the load generators.
- `app/` holds the programs: sockets, channels, threads, clocks, command lines and reports.
- `tests/` runs the library.

## The stream service

Producers and consumers connect over TCP. Every frame is
`[2 bytes: length of the rest, big-endian][1 byte: type][body]`.

| module     | what it holds                                                                   |
|------------|---------------------------------------------------------------------------------|
| `frame`    | building, splitting and reading frames; encoding a batch once for all subscribers |
| `topics`   | the table of topics and the lists of subscribers, as immutable snapshots        |
| `broker`   | a producer's session, batches grouped by topic, a subscriber's connection       |
| `bench`    | the plan of a load test and how many deliveries it is owed                      |
| `producer` | the messages of a producer                                                      |
| `consumer` | what a consumer counts and measures                                             |

In what it hands on for a topic, a producer's connection loses no message, doubles none and moves none
before another, however reads, frames and look-ups follow each other: see
`broker::law_no_message_is_lost`. A subscriber then reads what was published, as long as the batches of
a topic are written in the order in which they are handed on, and each message with its topic fits the
two bytes of a frame's length: see `broker::law_subscriber_reads_what_was_published`. The order is kept
by the topic's worker in `app/`, which is not verified. To a subscriber every batch of its channel is
written once and in order: see `broker::law_batches_are_written_once`.

## The datagram service

Datagrams carry a header of 24 bytes, little-endian. A server keeps the last packets of each topic
and sends them again on request. It confirms subscriptions and requests.

| module         | what it holds                                                        |
|----------------|----------------------------------------------------------------------|
| `protocol`     | headers, payloads and packets                                        |
| `ring_buffer`  | the last packets of a topic                                          |
| `server`       | subscriptions, forwarding and retransmission                         |
| `publisher`    | what a publisher of the benchmark sends                              |
| `subscriber`   | what a subscriber of the benchmark counts, misses and asks for       |
| `orchestrator` | who takes part in a benchmark, and what it comes to                  |

`spsc_ring` is a bounded first-in-first-out ring for one producer and one consumer.

## Trusted items

What is taken to be true of other crates without proof stands in `buffers` (`bytes`, and reading text
lossily), `decimal` (`itoa`), `histogram` (`hdrhistogram`) and `spsc_ring` (`parking_lot`), each with
a comment that says what is claimed.
