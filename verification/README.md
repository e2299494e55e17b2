# Billiards Coach

A three-cushion (carom) billiards coach: a shot simulator, a reader that recovers the
cue action from tracked ball paths, a shot solver, an editor and a viewer.

## Layout

- `src/` is the verified library. It holds the data model, the event scheduler of the
  shot engine, the scoring rule, the reading of event skeletons from tracks, the
  searches' decisions, the file formats, the shot finder for match videos, and the state
  of the editor and the viewer. A number is its binary64 pattern (`scalar::Scalar`),
  with the order that numbers have; the library decides on numbers and computes none.
- `app/` is the program around it: the floating-point model of balls, cloth and
  cushions, the search grids spread over threads, files, the network and the screen.
- `tests/` run the library, most of them against a floating-point model of the shot.

## Modules of the library

- `scalar`, `order`, `text`: numbers and their order, sorting, plain text.
- `model`: balls, table, scene, trajectories, contact logs and the scoring rule.
- `engine`: phases of motion, contacts, impacts, and the multi-ball scheduler.
- `solver`: what tracks testify, what a simulated shot is charged against it, where to
  search for the aim and the speed, coordinate descent, and the choice of a shot.
- `files`: scene files, shot files, match manifests and calibrations.
- `tracker`: the shots of a match video.
- `coach`: video frames, drawn paths, coaching sessions and the match browser.

## Program

    billiards                      simulate a shot and score it
    billiards editor [PATH]        a scene, a shot, or a directory of shots
    billiards viewer [URL]         a published match
    billiards calibrate SHOT…      fit the physics to tracked shots
    billiards track --match VIDEO --out-root DIR --name NAME
