# moros_game

A small networked tank game for a hobby operating system, with its
graphics and input plumbing, written in Verus.

- `src/` is the verified library: the VGA framebuffer (pixels, lines,
  rectangles, circles, bitmaps, PSF text) and palette, the mouse packet
  decoder and event queue, the tile map (random walls, flood fill of the
  areas, joining the areas, wall geometry and collision), the game state
  (players, bullets, shooting, hits, respawning, drawing), the byte forms
  that travel over the network, message framing, the server's client list,
  and the decisions of the command line and of received messages.
- `app/` is the program around it: the clock, random numbers, keyboard,
  device files of screen, palette and mouse, UDP sockets, the floating-point
  movement of players and bullets, and the loops of client, server and the
  demos.
- `tests/` runs the library on concrete values.
