# hints

Keyboard and mouse hints over the contents of a terminal, verified with Verus.

A hint marks text on the screen which can be acted on: a hyperlink, or text which matches a regular
expression. Hints can be limited to text which an outside program would open.

* `src/state.rs` labels every visible match with the keys which select it, and handles these keys.
* `src/highlight.rs` finds the match under the mouse.
* `src/offer.rs` collects what a hint is about: `src/hyperlinks.rs` and `src/regex.rs` find it,
  `src/post_process.rs` cuts off what is unlikely to be meant, `src/arrange.rs` puts it in order.
* `src/labels.rs` numbers the labels.
* `src/openable.rs` remembers which text the program would open, and decides when it is asked.
* `src/terminal.rs` holds the cells of a terminal; `src/screen.rs` is the mathematical view of it.
* `src/engine.rs`, `src/modifiers.rs` and `src/standard.rs` hold everything which is taken on trust:
  the calls into the terminal library, the windowing library and the standard library.
* `app/` connects the library to a live terminal, to the event loop and to the program.

Time is a number of nanoseconds. Functions which read the clock have a twin which is told the time,
and promise what the twin promises for some time.
