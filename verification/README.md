# JMESPath built-in functions, verified

The built-in functions of JMESPath (a query language for JSON), their argument
types and argument validation, written in Verus with contracts proved against a
mathematical model of JSON values.

Layout of `src/`:

- `text`: character-level string operations (order, prefix, suffix, search, join).
- `number`: numbers without floating point: floats as mantissa and power-of-two
  exponent, exact comparison, reading binary64 bit patterns, rounding.
- `variable`: the value type `Variable` and its model `Json`.
- `argument`: `ArgumentType`, its names and which values it accepts.
- `error`, `validate`: runtime errors, arity checks and argument validation.
- `functions`, `objects`, `ordering`, `expref`: the built-in functions.
- `registry`: the functions by name, the `JPFunction` and `Interpreter` traits.
- `laws`: properties proved across functions.

`app/` holds what works in floating point (`avg`, `sum`) and a `Display` wrapper
for argument types.
