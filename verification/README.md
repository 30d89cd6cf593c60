# hm_cx

An OpenHardwareMonitor-compatible sensor server whose logic is a library
verified with Verus.

## Layout

- `src/` — the verified library. Every executable function carries a
  `requires` / `ensures` contract over spec models (`Seq<char>` for text,
  `JsonV` for JSON trees, `Seq`/`Map` for collections), and the laws of the
  library stand as public proof functions:
  - `text`, `names`, `score`, `select`, `sensors`, `resolve`, `mapping`:
    sensor naming, the scoring and selection of hwmon / powercap / `sensors -j`
    sources, and the resolution of a mapping configuration;
  - `json`, `tree`, `sampling`, `cpuinfo`: the JSON model, the OHM tree
    walks (collecting sensors, applying samples, clearing unmapped values),
    the decisions around one sampling round and the `/proc/cpuinfo` block
    parser;
  - `schema`, `compare`, `view`, `health`: the schema comparison, the
    `/compare` report, the `/compare/view` page and the `/health` and
    `/data.json` replies;
  - `cli`, `config`: command parsing, the systemd user service plan and the
    server configuration.
- `tests/` — the test suite, run against the compiled library.
- `app/` — the program around the library: the HTTP server, file and
  process I/O, the sampler loop and the floating-point formatting of
  readings.
