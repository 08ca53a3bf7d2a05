# rustengine

The core of an engine for RoboCup Small Size League robots, verified with Verus:
it follows the referee, serves a strategy script written in Lua, and decides
what robots are told to do.

- `src/wire.rs`, `src/layout.rs`, `src/referee.rs`: the referee's messages, from
  bytes. Single values are read by the `protobuf` crate.
- `src/game_controller.rs`: the state of the game and the task that follows the
  referee.
- `src/lua_bindings.rs`: what a script can read and ask for.
- `src/motion/`: from a robot's state and a target to a command. What holds of
  speeds, of changes of velocity, of directions and under a change of signs or
  axes is proved with all rounding taken into account.
- `src/supervisor.rs`: the task that keeps the vision receiver running.
- `src/rounding.rs`, `src/arithmetic.rs`, `src/scalar.rs`, `src/single.rs`:
  numbers by their IEEE 754 bit patterns. Sums, products, quotients, remainders
  and square roots are computed in integers and proved to be the exact result,
  rounded.
- `src/world.rs`, `src/text.rs`: robots and the ball; text.

`app/` holds the sockets, the Lua state and `main`: it runs a script against the
referee and prints the commands.

    rustengine strategy/main.lua
