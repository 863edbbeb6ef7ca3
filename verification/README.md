# xbox_controller_macos_gip

Drives Dolphin's pipe controller backend from a PowerA Xbox Series X Advantage Hall Effect
Wired Controller (vendor `0x20D6`, product `0x2079`), which macOS has no driver for.

`src/` is the verified library. `app/` is the daemon around it: USB, the pipe, the clock
and the terminal.

| module | what it holds |
| --- | --- |
| `packet` | GIP input packets (command `0x20`) and why one cannot be read |
| `layout` | finding the offset of the input block in the payload |
| `mapping` | sticks, triggers and buttons as a GameCube pad's state; stick centres |
| `pipe` | the commands for a change of state, the pipe's path, what to do when it fails |
| `session` | what happens from packet to packet |
| `usb` | the choice of interface and endpoints |
| `binary32`, `rounding`, `root`, `precision`, `accuracy` | IEEE 754 binary32 arithmetic in integers, what rounding keeps, and how far rounded results are from exact ones |
| `text` | numbers as text |

Contracts speak of values as whole numbers of `2^-149`, the smallest positive binary32
number, so that the result of every operation is stated as the rounding of an exact
fraction. Laws that relate several functions are the public proof functions whose names
begin with `law_`.

The library calls `hex::encode`; its contract is the one that is not proved here.

The daemon writes to `~/Library/Application Support/Dolphin/Pipes/powera`. In Dolphin,
choose the device `Pipe/0/powera`. It sends `PRESS` and `RELEASE` for `A B X Y Z START D_UP
D_DOWN D_LEFT D_RIGHT`, `SET MAIN x y` and `SET C x y` for the sticks, and `SET L v` and
`SET R v` for the triggers, with values from 0 to 1.
