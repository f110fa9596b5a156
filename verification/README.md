# sumire_bot

The logic of the Sumire community Discord bot, written in Verus and proved
against its contracts, with the Discord client around it.

- `src/` is the verified library:
  - `text`: decimal notation and string building.
  - `calendar`: dates, the next and previous day, weekdays, and the bot's
    day that starts at 04:00.
  - `strings`: the optimal string alignment distance, `safe` (escapes dots,
    defuses `@everyone` and `@here`) and the coin transition line.
  - `expression`: fractions as plain values, their conversion to integers,
    and the explanations of expression errors.
  - `arith`: the gcd, lcm and ratio commands.
  - `command_list`, `help`: the command catalogue, lookup by path, full
    names, and the help command's replies.
  - `coins`: ranking, transfers, bets and the daily bonus.
  - `roles`, `achievements`, `failures`, `dispatch`: role requests, the
    anniversary calendar and the scheduled tasks, replies to failed
    commands, and the prefix rule.
- `tests/` runs the library on concrete values.
- `app/` is the bot itself: the Discord client, the database, the clock and
  the random draws, calling the library for every decision.
