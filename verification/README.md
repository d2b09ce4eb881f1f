# htmy_rs

Native accelerator for [htmy](https://github.com/volfpeter/htmy): replacements
for the renderer and the tag internals of `htmy`, picked up by `htmy` without
changes in user code.

## Layout

- `src/` is the library, verified with Verus:
  - `text.rs`: character-sequence helpers (mapping, joining with spaces);
  - `format.rs`: property-name conversion, XML escaping, attribute quoting and
    the default attribute formatting rules, with their laws;
  - `intern.rs`: the objects the renderer reads, and how tag children and
    separators are classified;
  - `tag.rs`: tags and the parts they render to;
  - `layout.rs`: the output of a render session, text parts and holes that
    later results fill;
  - `render.rs`: the render session, a state machine that walks what it renders
    and asks the embedding side for each piece of Python work, with its laws.
- `app/` is the Python extension module (built with `pyo3`): it reads Python
  objects into the library's values, performs the Python work the session asks
  for, and turns results back into Python objects. Its reading is not
  verified: an object is classified as `None`, a `TagImpl`, a
  `TagWithPropsImpl`, a `SafeStr`, a `str`, a list or tuple (its items read
  at once), or anything else, tested in that order (`objects.rs`, `snapshot`);
  for a property value it tests the exact type and leaves the choice of rule
  to the library's `value_rule`.
- `tests/` runs the library on concrete values.
