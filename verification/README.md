# autochat

A bot that takes part in group chats. It weighs whether to answer a message, reads the recent
history, recalls what it remembers of events and people, asks a language model, and carries out what
the reply asks for.

- `src/`: the rules, verified with Verus. Each public function states what it returns; laws that hold
  of several functions are public proof functions whose names begin with `law_`.
- `tests/`: the library on concrete values.
- `app/`: the service around it: files, the database of events, the connection to the main program,
  the clock, chance, and arithmetic on floating-point numbers.

In the library a double-precision number is held by its bit pattern (`number::Real`). It is compared
and bounded there; sums, products and distances are computed in `app/` and handed in.
