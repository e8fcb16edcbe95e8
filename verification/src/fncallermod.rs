//! The functions that html templates name, called by their names.
//!
//! There is no easy way to call a function by its name in Rust, so the name
//! is compared with each known one.

use crate::text::{concat, same_text};
use crate::RootRenderingComponent;
use vstd::prelude::*;

verus! {

/// What `get_text` returns for the data `test1`.
pub open spec fn get_text_result(test1: Seq<char>) -> Seq<char> {
    "get_text from rrc: "@ + test1
}

/// The string that the template function named `sx` returns, for the data `test1`.
pub open spec fn function_string(test1: Seq<char>, sx: Seq<char>) -> Seq<char> {
    if sx == "first_text"@ {
        "this is first text replaced"@
    } else if sx == "first_attr"@ {
        "this is first attr replaces"@
    } else if sx == "get_text"@ {
        get_text_result(test1)
    } else if sx == "get_red"@ {
        "red"@
    } else if sx == "test1"@ {
        test1
    } else {
        "Error: Unrecognized call_function_string: "@ + sx
    }
}

/// Whether `sx` names one of the template functions.
pub open spec fn is_function_name(sx: Seq<char>) -> bool {
    sx == "first_text"@ || sx == "first_attr"@ || sx == "get_text"@ || sx == "get_red"@ || sx
        == "test1"@
}

/// Whether `sx` names one of the template functions; for any other name
/// `call_function_string` returns its error text (see `law_unknown_name_gives_error`).
pub fn is_template_function(sx: &str) -> (r: bool)
    ensures
        r == is_function_name(sx@),
{
    same_text(sx, "first_text") || same_text(sx, "first_attr") || same_text(sx, "get_text")
        || same_text(sx, "get_red") || same_text(sx, "test1")
}

/// html_templating functions that return a String: calls the function named
/// `sx`, or returns an error text for an unknown name.
pub fn call_function_string(rrc: &RootRenderingComponent, sx: &str) -> (r: String)
    ensures
        r@ == function_string(rrc.test1@, sx@),
{
    if same_text(sx, "first_text") {
        "this is first text replaced".to_owned()
    } else if same_text(sx, "first_attr") {
        "this is first attr replaces".to_owned()
    } else if same_text(sx, "get_text") {
        get_text(rrc)
    } else if same_text(sx, "get_red") {
        get_red()
    } else if same_text(sx, "test1") {
        rrc.test1.clone()
    } else {
        concat("Error: Unrecognized call_function_string: ", sx)
    }
}

/// The text of the `get_text` template function, made from the data.
pub fn get_text(rrc: &RootRenderingComponent) -> (r: String)
    ensures
        r@ == get_text_result(rrc.test1@),
{
    concat("get_text from rrc: ", rrc.test1.as_str())
}

/// The color name used by the `get_red` template function.
pub fn get_red() -> (r: String)
    ensures
        r@ == "red"@,
{
    "red".to_owned()
}

/// A name that is none of the five template functions is answered with the
/// error text, and it is exactly such a name that `is_function_name` refuses.
pub proof fn law_unknown_name_gives_error(test1: Seq<char>, sx: Seq<char>)
    requires
        sx != "first_text"@,
        sx != "first_attr"@,
        sx != "get_text"@,
        sx != "get_red"@,
        sx != "test1"@,
    ensures
        function_string(test1, sx) == "Error: Unrecognized call_function_string: "@ + sx,
        !is_function_name(sx),
{
}

/// Each template function by its name: `test1` gives the component's data,
/// `get_text` the data behind a fixed label, `get_red` the color name, and the
/// two fixed texts their texts; none of them depends on anything else.
pub proof fn law_named_functions(test1: Seq<char>)
    ensures
        function_string(test1, "test1"@) == test1,
        function_string(test1, "get_text"@) == "get_text from rrc: "@ + test1,
        function_string(test1, "get_red"@) == "red"@,
        function_string(test1, "first_text"@) == "this is first text replaced"@,
        function_string(test1, "first_attr"@) == "this is first attr replaces"@,
        is_function_name("test1"@),
        is_function_name("get_text"@),
        is_function_name("get_red"@),
        is_function_name("first_text"@),
        is_function_name("first_attr"@),
{
    reveal_strlit("test1");
    reveal_strlit("get_text");
    reveal_strlit("get_red");
    reveal_strlit("first_text");
    reveal_strlit("first_attr");
    assert("first_text"@[6] != "first_attr"@[6]);
    assert("test1"@.len() != "first_text"@.len());
    assert("test1"@.len() != "first_attr"@.len());
    assert("test1"@.len() != "get_text"@.len());
    assert("test1"@.len() != "get_red"@.len());
    assert("get_red"@.len() != "first_text"@.len());
    assert("get_red"@.len() != "first_attr"@.len());
    assert("get_red"@.len() != "get_text"@.len());
    assert("get_text"@.len() != "first_text"@.len());
    assert("get_text"@.len() != "first_attr"@.len());
}

} // verus!
