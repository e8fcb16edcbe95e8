# dodrio_templating

Helpers for html templating in a dodrio web app, verified with Verus.

- `src/microxmlparser.rs`: a reader of events (start tag, attribute, text,
  end tag, end of document) from small MicroXML fragments, with the
  normalization it applies first (LF line ends, no comments, trimmed).
- `src/htmlentitiesmod.rs`: decoding of the five entities `&quot;` `&apos;`
  `&amp;` `&lt;` `&gt;`.
- `src/fncallermod.rs`: the template functions, called by name.
- `src/routermod.rs`: the decision taken when the `#` local route changes,
  and the address of the route's template under `html_templates/`.
- `src/text.rs`: character-level operations they share.
- `app/`: the browser console, the `hashchange` listener and the fetching
  of templates.

Each public function states its result over `Seq<char>` specifications; the
laws of the library are the `law_*` proof functions.
