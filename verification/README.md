# zappy

The server of Zappy, a network game in which teams of autonomous drones
explore a toroidal board, feed, gather stones and rise in level, while
graphical clients watch.

- `src/` is the verified library: command-line settings, the board and its
  resources, drones and teams, the AI command set (parsing, cost, effect on
  the world, elevation included), resource spreading and replenishment,
  the graphical protocol (events and requests), the scheduler
  of dated events, line framing of the sockets' byte streams, and the
  decisions taken when a line arrives or an event comes due. Every function
  carries a contract proved by Verus; the laws of the game (what one
  operation undoes of another, what reads back what was written, in which
  order requests run) are public proof functions named `law_*`.
- `app/` is the program around it: argument reading, the listening socket,
  the `poll` loop over the connections, and printing.
- `tests/` runs the library on concrete values.
