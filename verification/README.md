# surveillance

A camera surveillance server: it shows a camera and a microphone to viewers over WebRTC, plays what
they say, and recognizes known faces.

The logic is a library in `src/`, written in Verus and verified; its tests are in `tests/`. `app/` is
the program around it: the network, the programs that capture and encode, the files, and OpenCV.

| Module | What it does |
| --- | --- |
| `text`, `decimal`, `ordering`, `binary64` | texts, numbers in decimal, stable sorting, doubles by their bits |
| `config`, `camera`, `commands` | what is configured, which cameras there are, how programs are called |
| `mjpeg`, `rtp` | cutting JPEG frames out of a stream, reading RTP packets |
| `geometry`, `tracking`, `recognition` | rectangles, following faces, telling who a face is |
| `service` | the face recognition service: which frames it examines and what it reports |
| `cache`, `known_faces` | the cache of known faces, and which images are read |
| `pipeline`, `sessions`, `connect` | what is fed to which session, and how a viewer is connected |
| `settings` | what viewers can set, and what files they are served |
