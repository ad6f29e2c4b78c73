# rust_web_browser_engineering

The page-loading core of a small web browser, written in Verus: the
functions under `src/` are proved against their contracts.  Where a result
rests on the platform's `std::path` rules (the resolved font path), the
contract states what holds on every platform: a font path that is relative
everywhere, in a configuration file `p1/.../pn/f` (with or without a leading
`/`) whose components are plain, becomes that path after `p1/.../pn` and the
platform's separator.

- `src/` is the verified library: URLs and their resolution, HTTP response
  framing (headers, chunked bodies, gzip and brotli through their crates,
  redirects, `file://` responses), the HTML parser and its document
  normalisation, the CSS parser with its shorthands, selector matching and
  specificity, the cascade and inheritance that build the style tree, form
  fields and form submission URLs, the layout tree with its anonymous block
  boxes and the keywords that box geometry reads, the painting order of
  stacking contexts, the texture-atlas shelf
  packer, image source classification and the image size cache, and the
  small configuration file format, and the integer part of CSS colours
  (`transparent`, `#rgb`, `#rrggbb`, named colours and the arguments of
  `rgb(..)`).
- `app/` is the unverified driver around it: sockets and TLS, files, the
  configuration lookup, image decoding calls made on demand, and the
  floating-point font metrics that the style tree is parameterised over.
- `tests/` runs the library on concrete pages, style sheets and responses.

Laws that relate several functions are public proof functions, named
`lemma_*`, next to the functions they speak of: for example the shape of a
normalised document and where each node goes (`html::lemma_document_shape`,
`html::lemma_document_parts`), lower-cased names
(`html::lemma_names_lower_case`), the winner of the cascade
(`style::lemma_cascade_winner`), inherited values
(`style::lemma_inherited_values`), descendant selector chains
(`selector::lemma_descendant_chain`), well-formed parsed stylesheets
(`css::lemma_stylesheet_well_formed`), absolute URL strings that parse back
to the same URL (`utility::url_utils::lemma_abs_string_round_trip`), the
stacking-context sort (`display::lemma_sort_ctx`), anonymous boxes around inline runs
(`layout::lemma_anonymous_boxes`) and reading back an input value after
setting it (`style::lemma_set_then_read`).  Boxes handed out by the atlas
packer lie inside the atlas and never overlap (`gpu::AtlasPacker::allocate`).
