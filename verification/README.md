# rmux-fastcopy

Easymotion-style copying for rmux: the visible text of a pane is searched with named regular
expressions, every distinct copyable text gets a short label, and typing a label runs an action
on the text (by default, loading it into an rmux buffer).

`src/` is the library, verified with Verus:

- `matching`: the named patterns, their overrides and the matches found in a text, sorted and
  free of overlaps.
- `hints`: grouping matches by the text they copy and labelling each group; `grouping` holds
  the lemmas behind it.
- `state`: the selection state machine driven by key events.
- `keys`: what a key press means to the state machine.
- `options`: reading `show-options -g` output, undoing tmux quoting.
- `config`: choosing the alphabet, the patterns and the action, command line first.
- `action`: the program, arguments and standard input of the action for a selection.
- `commands`: the rmux commands run, the pane geometry and the popup arguments.
- `render`: the overlay as a list of drawing operations for a terminal size.
- `text`: character and string helpers.

`app/` is the program around it: command line, running rmux and the action, and the terminal.
`tests/` exercises the library with the real outside crates.
