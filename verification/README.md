# buck_remote

Reports builds to a Build Event Service, retries remote calls, and caches the results of
local actions.

`src/` is a library whose functions are verified with Verus: what is reported of a build
and in which order, the numbers and streams of the events, the headers of requests, the
retries of a call, the table of the action cache, and the check that outputs on disk can
be used again. What is not verified are the calls into other crates (`regex`, `tonic`,
`anyhow`, `rusqlite`), each of which stands in a small function of its own with the
contract that is relied upon.

`app/` connects the library to the network, the disk and the types of the build.

`tests/` runs the library on concrete events, calls and caches.
