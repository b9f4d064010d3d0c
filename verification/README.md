# dbc — a dollar calculator, verified with Verus

`dbc` evaluates expressions such as `$1,420,368.94 + $1`, `400 * 5%` or
`$100 + $AAPL` and prints the result in the format of the first number of the
expression as the lexer reads it: a `$` in front, thousands separators, and as
many decimals as that number has. A stock symbol (`$` and a letter, such as
`$AAPL` or `$BTC-USD`) stands for its current price; when it comes first, the
result is written in dollars and cents.

Numbers are decimal fixed-point values with nine fractional digits, held as
natural numbers of any size, with a whole part below 2^1024, the bound past
which a double-precision float is infinite. Sums, differences and remainders
are exact; products, quotients and square roots are truncated at the ninth
decimal; `pow` takes the fractional part of an exponent to thirty binary
places, as a product of repeated square roots. Past the bound a value is
infinite, and infinities and "not a number" (a remainder by zero, the square
root of a negative number, a negative number to a fractional power, infinity
less infinity) follow the rules of floats. A whole part past 2^64 - 1 is
written as 18446744073709551615, and "not a number" as `0`; either is followed
by `.NaN` in place of decimals when it is not a finite number and the format has
decimals. Only a division by zero, and the errors of reading and of the
expression's shape, are errors.

## Layout

- `src/` — the verified library.
  - `natural.rs`: natural numbers of any size.
  - `number.rs`: the `Num` type and its arithmetic.
  - `value.rs`: values: numbers, infinities and "not a number".
  - `text.rs`: characters and strings (Unicode classes, trimming).
  - `literal.rs`: decimal literals.
  - `exponent.rs`: numbers with a sign and an exponent, as `parse_number`
    reads them.
  - `lexer.rs`: tokens of an expression, stock symbols and their prices.
  - `rpn.rs`: the shunting-yard conversion and the stack evaluation.
  - `format.rs`: reading and writing number formats.
  - `calc.rs`: `evaluate` and `evaluate_with_prices`.
  - `repl.rs`: the line editor's state machine (keys, history, commands).
  - `laws.rs`: properties across functions.
  - `grouping.rs`: how the conversion groups an expression (precedence,
    association from the left, parentheses).
  - `history.rs`: moving through the history of entered lines.
- `tests/` — tests of the library.
- `app/` — the command-line program: arguments, the terminal loop, and the
  stock-price fetcher, which hands the library the prices of the symbols that
  `stock_symbols` lists.
