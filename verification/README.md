# perf2pprof

Converts the stacks that `perf script` prints into gzipped pprof profiles. The
conversion is a library written in Verus: each function states what it computes,
and the statements are proved.

- `src/` is the library. `script` reads samples, `event` selects those of one
  event, `aggregate` counts equal stacks together, `builder` lays out the profile
  and `wire` encodes it. `laws` and `wire_laws` hold what is proved of every
  profile: nothing is lost or counted twice, every number in it can be looked up,
  and it reads back from its encoding as it was written.
- `app/` holds the programs `perf2pprof` and `p2prof`: command lines, files and
  child processes. One executable acts by the name under which it is started.
- `tests/` runs the library on concrete values.

The library calls prost for the items of the protobuf encoding, flate2 for the
compression, and two functions of the standard library that have no specification
in `vstd`. Those calls are declared next to the code that uses them, each with
what is taken for granted of it.

## Usage

```sh
perf2pprof --script profile.perf-script.txt -o profile.pb.gz
perf2pprof --perf-data profile.perf.data --event cycles -o profile.pb.gz
p2prof --event cycles -top ./path/to/binary profile.perf.data
```

A selector such as `cycles` also matches an event recorded with modifiers, such
as `cycles:P`; modifiers are the letters that perf defines for them, so that two
tracepoints of one group are two events. Samples of several events are refused
unless one is selected: no profile adds up the periods of different events.
