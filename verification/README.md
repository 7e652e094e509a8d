# DanteSync

Keeps the local clock in step with a Dante audio network (PTPv1) and with UTC
(NTP), on Linux and Windows. PTP sets the frequency of the clock; NTP sets its
time, and is kept to alone while no PTP master is there. The logic is a Verus
library: what it computes is stated in contracts that Verus proves.

## Layout

- `src/ieee/` - double- and single-precision arithmetic on bit patterns, proved
  to round as IEEE 754 asks for. The other modules compute with it.
- `src/ptp.rs` - PTPv1 messages.
- `src/sync_state.rs` - the state machine of the synchronisation, with its
  mathematical model.
- `src/rate_servo.rs`, `src/servo.rs` - the servo on drift rates with its phases
  (ACQ, PROD, NANO), and a PI servo on offsets.
- `src/spike_filter.rs`, `src/order.rs` - median filter against spikes, jitter
  estimate, order statistics.
- `src/controller.rs`, `src/traits.rs`, `src/status.rs` - the controller, which
  drives the state machine with a clock, a network and a source of UTC.
- `src/daemon.rs`, `src/service.rs`, `src/config.rs` - the course of the daemon,
  its settings and its messages to the tray.
- `src/clock/`, `src/monotonic.rs`, `src/rtc.rs`, `src/time.rs` - clocks and points
  in time.
- `src/net.rs`, `src/net_pcap.rs`, `src/net_winsock.rs`, `src/ntp.rs` - choice of
  the interface, captured frames, timestamps, offsets to UTC.
- `src/tray.rs`, `src/icon.rs`, `src/version.rs` - what the Windows tray shows
  and tells.
- `tests/` - tests of the library.
- `app/` - the program: sockets, system calls, services, the tray's windows.

What is not proved is marked in the source: functions whose bodies call into
`std` or `chrono`, each with a comment on what is believed of the call. What a
clock, a network or a source of UTC does is up to those who implement the traits;
the contracts say how it is called, and what is made of the result.

## Usage

```
dantesync [--interface NAME] [--ntp-server IP] [--skip-ntp] [--service]
```

The configuration is `/etc/dantesync/config.json` on Linux and
`C:\ProgramData\DanteSync\config.json` on Windows; only `ntp_server` needs to be
set.
