# klassic_macro_peg

A reader and evaluator for macro parsing-expression grammars (macro PEGs):
PEG rules that take parameters, evaluated under call-by-name,
sequential call-by-value or parallel call-by-value argument passing.
The whole library is verified with Verus.

Layout of `src/`:

- `ast.rs`: grammars, rules, expressions and results, with their
  mathematical views.
- `equality.rs`: `==` on expressions, proved against its specification;
  character sets compare as sets.
- `syntax.rs`: the concrete syntax as a mathematical function from source
  characters to a grammar or an error, with the lemmas that make its
  recursion well founded.
- `parser.rs`: the executable reader; `parse_macro_peg` gives exactly what
  `syntax::spec_parse_grammar` describes.
- `semantics.rs`: what matching an expression against an input means, with a
  depth budget.
- `evaluator.rs`: the executable evaluator (`Evaluator`, `eval_grammar`),
  proved to agree with `semantics.rs`.
- `laws.rs`: properties that hold for every grammar and input: a match
  consumes a prefix, a larger depth budget never changes a finished result,
  predicates consume nothing, repetitions never fail, later bindings hide
  earlier ones, character classes are expanded exactly, expansion is
  idempotent, the strategies agree on grammars without calls, how each
  strategy binds call arguments, spacing stops at the next token, and every
  reported position is a real line and column of the source.
- `text.rs`: conversions between strings and characters.
