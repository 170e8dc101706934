# startui

The verified core of a terminal start page that shows news feeds, the song
that is playing, a system summary and a clock in three panes.

- `src/` is the library, checked by Verus:
  - `text`: whitespace, words, lines, UTF-8 lengths, decimal numbers;
  - `ui`: word wrapping of headlines, the scrolling song title, the system
    summary rows, the clock text;
  - `app`: the dashboard state and what keys, ticks and fetched feeds do to it;
  - `rss`: reading feed documents and gathering a fetch round;
  - `utils`: turning the output of helper programs into display text;
  - `config`: the configuration's shape.
- `app/` is the program around it: terminal drawing, the event loop, HTTP
  fetching in a background thread, the configuration file and helper programs.
- `tests/` runs the library on concrete inputs.
