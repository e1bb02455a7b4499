# funscript_control

The verified core of a funscript video-sync player that drives a stroking
(oscillate) device and a vibrating device through a Buttplug server.

- `src/funscript.rs`: script defaults, the stable time order of actions,
  condensing of neighbouring identical positions.
- `src/window.rs`: how a position is interpolated between actions, and the
  position changes measured inside an analysis window.
- `src/intensity.rs`: the sample schedule of the intensity curve and the plan
  that ties ordering, condensing and windows together.
- `src/calibration.rs`: the BPM to intensity calibration table.
- `src/device_control.rs`: the device manager's state machine (which device
  fills which output, when to scan, where control commands go).

`app/` holds what stays outside verification: the HTTP calibration handlers,
the Buttplug client and its async tasks, and the floating-point evaluation of
the intensity curve over the plan computed by the library.
