# objectify_html

Replaces `<include object="name" params="[a][b]"/>` tags of an HTML page by
the objects that `.ohtml` files define between `<begin object="name">` and
`</begin>`, the files being those a build file lists between `[` and `]`.
Parameters `@p1@`, `@p2@`, ... (and `tag`) in an object's body are replaced
by the values given in `params`, in order.

- `src/text.rs`: character sequences, UTF-8 byte lengths, conversions.
- `src/scan.rs`: tag names, whole tags, attributes, the substring search,
  delimited substrings, object bodies.
- `src/edit.rs`: insertion and removal at byte positions, parameters and
  their substitution into an object body.
- `src/objects.rs`: finding a definition in a file, and the search through
  the listed files, as a machine that asks for file contents.
- `src/inline.rs`: the replacement of the include tags of a page, as a
  machine that asks for the body of each object.
- `app/main.rs`: the command; it reads the files and drives both machines.
