# websdr

A radio receiver for the browser: it reads an RTL-SDR dongle, and sends spectra and demodulated
audio to everyone who is connected over a websocket. Clients can change the frequency.

The library, under `src/`, holds the decisions and the data handling, verified with Verus:

- `radio`: the receiver's settings, and the samples in the bytes that it delivers
- `iter`: iterator adaptors of the signal path
- `demod`: which samples become audio, and the audio that waits
- `payload`: spectrum and audio data, and the frames that carry them
- `controller`: the buffers of the clients that are connected
- `clients`: what holds of those buffers over any number of operations
- `session`: what one connection does about messages, reports, data and failures
- `report`: the text in which a client is told about the receiver
- `connection`: what holds of a connection over any number of events
- `worker`: the receiver's work cycle, one step at a time
- `run`: what holds of the work cycle over any number of steps

The program, under `app/`, does the rest: the device, the web server, reading commands as JSON, threads
and tasks, and the floating-point steps of the signal path (window, transform, phase, scaling).

The buffers of the `bytes` crate, the channels of the `async-channel` crate and the JSON writer of
the `serde_json` crate are used as they are. What the proofs take for granted about them stands in
`payload`, `controller`, `worker` and `report`, above the functions marked `external_body`.
