# supertimeline

A timeline resolver, verified with Verus. A timeline is a list of objects
on layers; when each object is on is given by expressions (`"#video.start +
10"`, `".class0 & !$layer1"`, plain numbers) that may refer to other
objects, to classes and to layers. Resolving turns those expressions into
instances in time; resolving the states then gives, for every layer, which
object is its state from each point in time on.

## Layout

- `src/` — the library, verified; the calls into `regex` and `String::push`
  are the only functions taken on their stated contracts:
  - `expression.rs`, `text.rs`, `patterns.rs`: parsing expression strings
    into expression trees, and simplifying them;
  - `instance.rs`, `caps.rs`, `names.rs`, `references.rs`: the data of
    instances, caps and the id lists of classes and layers;
  - `events.rs`, `util.rs`, `boolean.rs`: operations on lists of instances
    (cleaning, inverting, boolean and arithmetic combination, repetition,
    capping within parents);
  - `lookup_expression.rs`, `resolver.rs`, `api.rs`: resolving objects and
    whole timelines;
  - `state.rs`: the states of the layers over time.
- `tests/` — tests of the library.
- `app/` — `resolve-it`, a command-line program that reads a timeline from
  a JSON dump and resolves it repeatedly, timing it.

Check the library with Verus; run the tests with cargo.
