# constant_multiplication

Shift-and-add decompositions of multiplications by a constant, verified with Verus.

A packed table gives the adder cost of each odd constant; a compressed table lists, for
each odd constant, the graph types (adders, subtractors, cascades and leapfrog graphs)
that compute it. From those the library builds every computation tree of a constant and
writes each tree as a sequence of named assignment steps such as `s0 = (x + (x << 2))`.

Layout:

- `src/bits.rs`: powers of two, trailing zeros, odd parts and bit lengths.
- `src/text.rs`: decimal text, word replacement, parentheses and shift expressions.
- `src/graph_types.rs`: decoding of the graph-type table (varint numbers, LZ4 frame).
- `src/encoding.rs`: the coding of the table written out, and the proof that decoding it
  gives the table back.
- `src/adder_cost.rs`: the packed 3-bit adder costs.
- `src/trees.rs`: computation trees of a constant, and the depth of their recursion.
- `src/equations.rs`: trees flattened into steps, step sequences and their text.
- `src/semantics.rs`: what the steps compute. Without scaling, the steps of a tree whose
  leaves are powers of two compute the tree's value times the input; with a table whose
  entries mean what they say, the sequences of a constant compute the constant times the
  input (the trees are those of its odd part, and a last step shifts the result left); with
  scaling, inputs that are multiples of a large enough power of two give the constant times
  the input divided by `2^bit_length(constant)` exactly; naming the output renames only the
  last step of each sequence.
- `app/lib.rs`: the Python module around the library (data files, conversions, printing).
