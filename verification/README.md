# nshell

The logic of Nshell, a small interactive shell, as a library verified with
Verus, and the program around it.

- `src/` is the library. Its functions carry contracts that Verus proves,
  except two small wrappers whose contracts Verus takes on trust, each around
  one standard-library call: `String::push` (`text::push_char`) and
  `str::to_lowercase` (`shell::lowercase_text`). The library covers the configuration and room file formats (`config`, `room`), the
  command-line lexer and parser (`parser`), word expansion and globbing
  (`expand`), the rules of the shell itself, such as alias expansion, quoting,
  built-in commands, history and trust (`shell`, `room`), how configuration
  and room variables layer over the inherited environment (`environment`), the prompt
  (`prompt`), job bookkeeping (`execute`), command suggestions and the
  executable index (`commands`), the alert sound's WAV encoding (`alert`) and
  the command line of the `nsh` program (`cli`). The public `lemma_*` proof
  functions state the properties that hold across calls, such as that a
  quoted word, the empty one included, reads back as itself, that room
  variables win over configured ones and leaving a room puts those back, that trust follows a room file's
  contents, or that a new room file reads back with its name.
- `app/` is the `nsh` program: it reads and writes files, starts processes,
  manages the terminal and the environment, and hands plain values to the
  library and back.
- `tests/` runs the library on concrete inputs.
