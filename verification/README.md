# rcn

A leveled, block-based, lossless compressor.

The input is cut into blocks; each is classified as text, binary data, code or
random bytes, transformed, searched for matches and entropy coded. The `RCN1`
container records per block which method was used, how long it is, and its CRC32.

| level | mode      | engine                                                      |
|------:|-----------|-------------------------------------------------------------|
|     1 | `wire`    | hash-chain LZ, with order-0 rANS where that shrinks it      |
|     3 | `general` | byte-level context mixing with optimal match parsing        |
|     9 | `hybrid`  | byte-level with transform trials for text, bit-level else   |
|    19 | `slow`    | bit-level context mixing for every block                    |
|       | `fast`    | byte-level with transform trials for every block            |

## Layout

- `src/` is the library, verified with Verus. Every function says in its contract
  what it computes; functions named `law_..` state what holds across functions, the
  most important one being `codec::stream_law::law_round_trip`: what was compressed
  comes back.
  - `bwt/`: block transforms, the stream splits' pipelines, and the trial that picks
    one.
  - `entropy/`: rANS coders for bytes, bits and side-streams.
  - `model/`: bit predictors, the word dictionary, and transforms for binary data.
  - `json_split`, `csv_split`, `xml_split`: streams of structured text.
  - `wire`, `bytecodec`: the hash-chain engine and the byte-level engine.
  - `codec/`: match search, blocks, and the container as a whole.
- `tests/` holds the tests.
- `app/` is the command-line program. What is floating point stands there: the
  measures that the classifier goes by, and the mixers behind the bit-level engine.
  The library takes both as functions, and its laws hold for all of them.
