# cosmic_shell

The workspace logic of a desktop compositor: outputs that come and go, the workspaces that
they show, windows and layer surfaces that are mapped and moved, and what clients are told of
all that. The library is written in Verus. Every function in `src/` is verified against its
contract.

A shell is in one of two modes. Each output has a set of workspaces of its own, or all outputs
share one set. A set has a fixed number of workspaces, or as many as hold windows and an empty
one at the end.

- `geometry`, `table`, `output`, `config`: points and rectangles, an ordered map, outputs,
  settings
- `protocol`, `toplevel`: what clients are told of workspaces and of windows
- `element`, `workspace`, `set`, `mode`, `scene`: what is on a workspace, sets of workspaces,
  the two modes
- `shell`: the shell itself; `hotplug`: outputs; `gather`, `split`, `convert`: changing the
  mode; `windows`: mapping and moving windows
- `possible`: whether an operation can be carried out, for callers that have to ask first
- `laws`, `contents`, `announce`: what holds across operations. Handles are not used again.
  Windows are kept, except that splitting a shared set drops what no output showed most of,
  and that the last output takes its own set with it. Clients are told on which workspace a
  window is, except after a hand-over from an output that showed windows, after the last
  output with a set of its own is gone, after a split without outputs, and after a move of one
  of two elements that share a window.

Outputs, windows, surfaces and seats go by numbers in the library. `app/` gives them out for
the things of a compositor that is built on smithay, and carries out what is left to do. Where
an element comes to lie is for the compositor's layout to say, which `app/` asks for after each
change and writes down in the library.
