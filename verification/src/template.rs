//! Filling a template with texts, which an outside formatter does.

use vstd::prelude::*;
use dyn_fmt::AsStrFormatExt;

verus! {

/// The views of `texts`, in order.
pub open spec fn texts_view(texts: Seq<String>) -> Seq<Seq<char>> {
    texts.map_values(|text: String| text@)
}

/// What the formatter makes of `template` when it is given `args` to put in
/// the place of its placeholders. The placeholder syntax is the formatter's
/// own; nothing is said of it here.
pub uninterp spec fn template_fill(template: Seq<char>, args: Seq<Seq<char>>) -> Seq<char>;

/// `AsStrFormatExt::format` of `dyn_fmt`, called on the template with the
/// texts as its arguments. Each text is handed over as a `String`, which the
/// formatter writes as it is. The call reads nothing but its arguments, so its
/// result is named after them.
#[verifier::external_body]
pub(crate) fn fill_template(template: &String, args: &Vec<String>) -> (text: String)
    ensures
        text@ == template_fill(template@, texts_view(args@)),
{
    template.format(args)
}

} // verus!
