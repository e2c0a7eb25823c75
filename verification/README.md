# wesnoth_engine

The verified core of a hex-map strategy game engine, written in Verus.

`src/` is the library: every function in it carries a contract that Verus
proves. It reads the WML data format, maps, adventures, dialogs and game
packages; it turns the terrain codes of a map into visual layers in drawing
order (ground, overlays, transitions, bent wooden bridges, mountain ranges,
castle walls and what the terrain graphics rules place) and names the sprite
file of each; it searches movement ranges, orders combat strikes and works
out what a hit does. It holds the world of a running game in a
transactional store, validates the messages between engine and clients,
and runs the protocol side of a session: repeated deliveries are answered
as before, stale commands and interactions are refused, and each viewer's
view advances one revision at a time. The game's own rules are scripts that
the library does not run; a session is driven step by step around them.

`app/` is a small command-line program around the library: it opens a game
package from a directory (the manifest is JSON), lists the sprites of a map
file, and prints a combat forecast, whose chances are floating point.

`tests/` runs the library on concrete inputs.
