//! Local routing by the `#` fragment of the URL.
//!
//! Each page has its own html template. The page changes with the hash local
//! route, as in `//myurl/#mylocal_route`. Templates are in the folder
//! `html_templates/`; a template's file name is the local route with the
//! extension `.html`.

use crate::text::{
    chars_of, push_all, replace_all, replace_chars, same_text, starts_with, string_from_chars,
};
use crate::RootRenderingComponent;
use vstd::prelude::*;

verus! {

/// The address of the template of the local route `route`: the folder
/// `html_templates/`, the route without any `#`, and `.html`.
pub open spec fn template_url(route: Seq<char>) -> Seq<char> {
    "html_templates/"@ + replace_all(route, seq!['#'], seq![]) + ".html"@
}

/// The address of the template of the local route `route`.
pub fn template_url_of(route: &str) -> (url: String)
    ensures
        url@ == template_url(route@),
{
    let mut out = chars_of("html_templates/");
    let hash: Vec<char> = vec!['#'];
    let nothing: Vec<char> = Vec::new();
    let route_chars = chars_of(route);
    let name = replace_chars(&route_chars, &hash, &nothing);
    proof {
        assert(hash@ =~= seq!['#']);
        assert(nothing@ =~= Seq::<char>::empty());
    }
    push_all(&mut out, &name);
    let extension = chars_of(".html");
    push_all(&mut out, &extension);
    string_from_chars(out)
}

/// The decision taken when the `#` fragment of the URL changes to `hash`.
/// Where it is the local route already, nothing is to be done. Otherwise the
/// new route is stored and the address of its template is returned, to be
/// fetched.
pub fn on_hash_change(rrc: &mut RootRenderingComponent, hash: &str) -> (url: Option<String>)
    ensures
        old(rrc).local_route@ == hash@ ==> url is None && *final(rrc) == *old(rrc),
        old(rrc).local_route@ != hash@ ==> {
            &&& final(rrc).local_route@ == hash@
            &&& final(rrc).html_template == old(rrc).html_template
            &&& final(rrc).test1 == old(rrc).test1
            &&& url matches Some(u) && u@ == template_url(hash@)
        },
{
    if same_text(rrc.local_route.as_str(), hash) {
        None
    } else {
        rrc.local_route = hash.to_owned();
        Some(template_url_of(hash))
    }
}

/// The template's file name is the route with only its `#` removed: for a
/// route `r` without `#`, both `r` and `#r` lead to `html_templates/` + `r` +
/// `.html`.
pub proof fn law_template_file_is_the_route(r: Seq<char>)
    requires
        !r.contains('#'),
    ensures
        template_url(r) == "html_templates/"@ + r + ".html"@,
        template_url(seq!['#'] + r) == "html_templates/"@ + r + ".html"@,
{
    lemma_replace_without_hash(r);
    let h = seq!['#'] + r;
    assert(starts_with(h, seq!['#']));
    assert(h.skip(1) =~= r);
    assert(replace_all(h, seq!['#'], seq![]) =~= Seq::<char>::empty() + replace_all(r, seq!['#'], seq![]));
}

proof fn lemma_replace_without_hash(r: Seq<char>)
    requires
        !r.contains('#'),
    ensures
        replace_all(r, seq!['#'], seq![]) == r,
    decreases r.len(),
{
    if r.len() > 0 {
        assert(r[0] != '#');
        assert(!starts_with(r, seq!['#']));
        assert(!r.drop_first().contains('#')) by {
            if r.drop_first().contains('#') {
                let k = choose|k: int| 0 <= k < r.drop_first().len() && r.drop_first()[k] == '#';
                assert(r[k + 1] == '#');
            }
        }
        lemma_replace_without_hash(r.drop_first());
        assert(seq![r[0]] + r.drop_first() =~= r);
    }
}

} // verus!
