//! Directive parsing and dispatch.  A directive is one recognized
//! instruction string, its `-clw-` prefix already stripped: it either
//! configures the wrapper (print flags, paths) or names one engine
//! transformation.  Dispatch is a closed tagged union: each recognized
//! operation carries its operands and is applied by an exhaustive match,
//! strictly in the order the directives were encountered.  A directive
//! missing a required part is not an error: it parses as unrecognized
//! and the caller pushes the literal argument back into the list.

use vstd::prelude::*;

use crate::linkmode::link_toggle_store;
use crate::relocate::anchor_of;
use crate::relocate::opt_view;
use crate::relocate::relocate_store;
use crate::store::ArgumentStore;
use crate::store::StoreView;
use crate::strutil::prefix_matches;
use crate::transform::remove_store;
use crate::transform::replace_store;
use vstd::string::StrSliceExecFns;
use vstd::string::StringExecFns;

verus! {

/// One engine transformation with its operands.
pub enum Directive {
    Remove { key: String },
    Replace { key: String, value: String },
    LinkMode { key: String, dynamic: bool, linker: bool },
    Relocate { value: String, anchor: Option<String>, anchor_is_before: bool, to_front: bool },
}

/// Mathematical view of a [`Directive`].
pub ghost enum DirectiveView {
    Remove { key: Seq<char> },
    Replace { key: Seq<char>, value: Seq<char> },
    LinkMode { key: Seq<char>, dynamic: bool, linker: bool },
    Relocate {
        value: Seq<char>,
        anchor: Option<Seq<char>>,
        anchor_is_before: bool,
        to_front: bool,
    },
}

impl View for Directive {
    type V = DirectiveView;

    open spec fn view(&self) -> DirectiveView {
        match self {
            Directive::Remove { key } => DirectiveView::Remove { key: key@ },
            Directive::Replace { key, value } => DirectiveView::Replace {
                key: key@,
                value: value@,
            },
            Directive::LinkMode { key, dynamic, linker } => DirectiveView::LinkMode {
                key: key@,
                dynamic: *dynamic,
                linker: *linker,
            },
            Directive::Relocate { value, anchor, anchor_is_before, to_front } => {
                DirectiveView::Relocate {
                    value: value@,
                    anchor: opt_view(*anchor),
                    anchor_is_before: *anchor_is_before,
                    to_front: *to_front,
                }
            },
        }
    }
}

impl DeepView for Directive {
    type V = DirectiveView;

    open spec fn deep_view(&self) -> DirectiveView {
        self.view()
    }
}

/// What one wrapper argument means.
pub enum ParsedArgument {
    Transform(Directive),
    JustPrint,
    BeforePrint,
    LogFile(String),
    CommandPath(String),
    WorkDir(String),
    RedirectStdout(String),
    RedirectStderr(String),
    Unrecognized,
}

/// Mathematical view of a [`ParsedArgument`].
pub ghost enum ParsedView {
    Transform(DirectiveView),
    JustPrint,
    BeforePrint,
    LogFile(Seq<char>),
    CommandPath(Seq<char>),
    WorkDir(Seq<char>),
    RedirectStdout(Seq<char>),
    RedirectStderr(Seq<char>),
    Unrecognized,
}

impl View for ParsedArgument {
    type V = ParsedView;

    open spec fn view(&self) -> ParsedView {
        match self {
            ParsedArgument::Transform(d) => ParsedView::Transform(d@),
            ParsedArgument::JustPrint => ParsedView::JustPrint,
            ParsedArgument::BeforePrint => ParsedView::BeforePrint,
            ParsedArgument::LogFile(p) => ParsedView::LogFile(p@),
            ParsedArgument::CommandPath(p) => ParsedView::CommandPath(p@),
            ParsedArgument::WorkDir(p) => ParsedView::WorkDir(p@),
            ParsedArgument::RedirectStdout(p) => ParsedView::RedirectStdout(p@),
            ParsedArgument::RedirectStderr(p) => ParsedView::RedirectStderr(p@),
            ParsedArgument::Unrecognized => ParsedView::Unrecognized,
        }
    }
}

/// What stands after a recognized prefix.
pub open spec fn after_prefix(s: Seq<char>, p: Seq<char>) -> Seq<char> {
    s.subrange(p.len() as int, s.len() as int)
}

/// Index of the first `=` in `s`, or `-1`.
pub open spec fn find_eq(s: Seq<char>) -> int
    decreases s.len(),
{
    if s.len() == 0 {
        -1
    } else if s[0] == '=' {
        0
    } else {
        let r = find_eq(s.drop_first());
        if r < 0 {
            -1
        } else {
            1 + r
        }
    }
}

/// `find_eq` names the first `=`.
pub proof fn lemma_find_eq_first(s: Seq<char>)
    ensures
        find_eq(s) >= 0 ==> 0 <= find_eq(s) < s.len() && s[find_eq(s)] == '=' && forall|k: int|
            0 <= k < find_eq(s) ==> s[k] != '=',
        find_eq(s) < 0 ==> forall|k: int| 0 <= k < s.len() ==> s[k] != '=',
    decreases s.len(),
{
    if s.len() == 0 {
    } else if s[0] == '=' {
    } else {
        lemma_find_eq_first(s.drop_first());
        assert(forall|k: int| 1 <= k < s.len() ==> s[k] == s.drop_first()[k - 1]);
    }
}

/// Splits `<key>=<value>` at the first `=`: the split exists exactly
/// when both parts are nonempty.
pub open spec fn kv_split(s: Seq<char>) -> Option<(Seq<char>, Seq<char>)> {
    let e = find_eq(s);
    if 1 <= e && e < s.len() - 1 {
        Some((s.subrange(0, e), s.subrange(e + 1, s.len() as int)))
    } else {
        None
    }
}

/// The meaning of one wrapper argument, its `-clw-` prefix already
/// stripped.  Earlier clauses win; a directive missing a required part
/// is unrecognized.
pub open spec fn parse_spec(s: Seq<char>) -> ParsedView {
    if s == "just-print"@ {
        ParsedView::JustPrint
    } else if s == "before-print"@ {
        ParsedView::BeforePrint
    } else if prefix_matches(s, "log-file="@) {
        ParsedView::LogFile(after_prefix(s, "log-file="@))
    } else if prefix_matches(s, "command="@) {
        ParsedView::CommandPath(after_prefix(s, "command="@))
    } else if prefix_matches(s, "work-dir="@) {
        ParsedView::WorkDir(after_prefix(s, "work-dir="@))
    } else if prefix_matches(s, "redirect-stdout="@) {
        ParsedView::RedirectStdout(after_prefix(s, "redirect-stdout="@))
    } else if prefix_matches(s, "redirect-stderr="@) {
        ParsedView::RedirectStderr(after_prefix(s, "redirect-stderr="@))
    } else if prefix_matches(s, "remove="@) {
        ParsedView::Transform(DirectiveView::Remove { key: after_prefix(s, "remove="@) })
    } else if prefix_matches(s, "replace-"@) {
        match kv_split(after_prefix(s, "replace-"@)) {
            Some((k, v)) => ParsedView::Transform(DirectiveView::Replace { key: k, value: v }),
            None => ParsedView::Unrecognized,
        }
    } else if prefix_matches(s, "static-link-compiler="@) {
        ParsedView::Transform(
            DirectiveView::LinkMode {
                key: after_prefix(s, "static-link-compiler="@),
                dynamic: false,
                linker: false,
            },
        )
    } else if prefix_matches(s, "dynamic-link-compiler="@) {
        ParsedView::Transform(
            DirectiveView::LinkMode {
                key: after_prefix(s, "dynamic-link-compiler="@),
                dynamic: true,
                linker: false,
            },
        )
    } else if prefix_matches(s, "static-link="@) {
        ParsedView::Transform(
            DirectiveView::LinkMode {
                key: after_prefix(s, "static-link="@),
                dynamic: false,
                linker: true,
            },
        )
    } else if prefix_matches(s, "dynamic-link="@) {
        ParsedView::Transform(
            DirectiveView::LinkMode {
                key: after_prefix(s, "dynamic-link="@),
                dynamic: true,
                linker: true,
            },
        )
    } else if prefix_matches(s, "move-front="@) {
        ParsedView::Transform(
            DirectiveView::Relocate {
                value: after_prefix(s, "move-front="@),
                anchor: None,
                anchor_is_before: true,
                to_front: true,
            },
        )
    } else if prefix_matches(s, "move-front-before-"@) {
        match kv_split(after_prefix(s, "move-front-before-"@)) {
            Some((a, v)) => ParsedView::Transform(
                DirectiveView::Relocate {
                    value: v,
                    anchor: Some(a),
                    anchor_is_before: true,
                    to_front: true,
                },
            ),
            None => ParsedView::Unrecognized,
        }
    } else if prefix_matches(s, "move-front-after-"@) {
        match kv_split(after_prefix(s, "move-front-after-"@)) {
            Some((a, v)) => ParsedView::Transform(
                DirectiveView::Relocate {
                    value: v,
                    anchor: Some(a),
                    anchor_is_before: false,
                    to_front: true,
                },
            ),
            None => ParsedView::Unrecognized,
        }
    } else if prefix_matches(s, "move-back="@) {
        ParsedView::Transform(
            DirectiveView::Relocate {
                value: after_prefix(s, "move-back="@),
                anchor: None,
                anchor_is_before: true,
                to_front: false,
            },
        )
    } else if prefix_matches(s, "move-back-before-"@) {
        match kv_split(after_prefix(s, "move-back-before-"@)) {
            Some((a, v)) => ParsedView::Transform(
                DirectiveView::Relocate {
                    value: v,
                    anchor: Some(a),
                    anchor_is_before: true,
                    to_front: false,
                },
            ),
            None => ParsedView::Unrecognized,
        }
    } else if prefix_matches(s, "move-back-after-"@) {
        match kv_split(after_prefix(s, "move-back-after-"@)) {
            Some((a, v)) => ParsedView::Transform(
                DirectiveView::Relocate {
                    value: v,
                    anchor: Some(a),
                    anchor_is_before: false,
                    to_front: false,
                },
            ),
            None => ParsedView::Unrecognized,
        }
    } else {
        ParsedView::Unrecognized
    }
}

/// The store a directive's transformation leaves behind.
pub open spec fn apply_directive_spec(dv: DirectiveView, sv: StoreView) -> StoreView {
    match dv {
        DirectiveView::Remove { key } => remove_store(sv, key),
        DirectiveView::Replace { key, value } => replace_store(sv, key, value),
        DirectiveView::LinkMode { key, dynamic, linker } => link_toggle_store(
            sv,
            key,
            dynamic,
            linker,
        ),
        DirectiveView::Relocate { value, anchor, anchor_is_before, to_front } => relocate_store(
            sv,
            value,
            if anchor_is_before {
                anchor_of(anchor, None)
            } else {
                anchor_of(None, anchor)
            },
            to_front,
        ),
    }
}

/// The store a whole directive chain leaves behind, applied strictly in
/// order.
pub open spec fn apply_all_spec(dvs: Seq<DirectiveView>, sv: StoreView) -> StoreView
    decreases dvs.len(),
{
    if dvs.len() == 0 {
        sv
    } else {
        apply_all_spec(dvs.drop_first(), apply_directive_spec(dvs[0], sv))
    }
}

/// What one raw command-line argument is to the wrapper.
pub enum ArgumentKind {
    Wrapper(ParsedArgument),
    ResponseRef(String),
    Plain,
}

/// Mathematical view of an [`ArgumentKind`].
pub ghost enum ArgKindView {
    Wrapper(ParsedView),
    ResponseRef(Seq<char>),
    Plain,
}

impl View for ArgumentKind {
    type V = ArgKindView;

    open spec fn view(&self) -> ArgKindView {
        match self {
            ArgumentKind::Wrapper(p) => ArgKindView::Wrapper(p@),
            ArgumentKind::ResponseRef(p) => ArgKindView::ResponseRef(p@),
            ArgumentKind::Plain => ArgKindView::Plain,
        }
    }
}

/// How one raw argument is dispatched: a `-clw-` argument is a wrapper
/// directive, a `@path` argument may name a response file, anything
/// else passes through.
pub open spec fn classify_spec(s: Seq<char>) -> ArgKindView {
    if prefix_matches(s, "-clw-"@) {
        ArgKindView::Wrapper(parse_spec(after_prefix(s, "-clw-"@)))
    } else if crate::relocate::is_ref_token(s) {
        ArgKindView::ResponseRef(crate::relocate::ref_path(s))
    } else {
        ArgKindView::Plain
    }
}

/// Classifies one raw command-line argument.
pub fn classify_argument(arg: &str) -> (r: ArgumentKind)
    ensures
        r@ == classify_spec(arg@),
{
    if let Some(rest) = crate::strutil::strip_prefix_of(arg, "-clw-") {
        return ArgumentKind::Wrapper(parse_argument(rest));
    }
    if !arg.is_empty() && arg.get_char(0) == '@' {
        let n = arg.unicode_len();
        let path = arg.substring_char(1, n);
        return ArgumentKind::ResponseRef(String::from_str(path));
    }
    ArgumentKind::Plain
}

/// Splits `<key>=<value>` at the first `=`, owning the parts.
fn kv_split_exec(rest: &str) -> (r: Option<(String, String)>)
    ensures
        ({
            match r {
                Some(kv) => kv_split(rest@) matches Some(sp) && kv.0@ == sp.0 && kv.1@ == sp.1,
                None => kv_split(rest@) is None,
            }
        }),
{
    proof {
        lemma_find_eq_first(rest@);
    }
    match crate::strutil::find_char(rest, '=') {
        Some(e) => {
            proof {
                let fe = find_eq(rest@);
                if fe < 0 {
                    assert(rest@[e as int] != '=');
                    assert(false);
                }
                if fe < e as int {
                    assert(rest@[fe] != '=');
                    assert(false);
                }
                if fe > e as int {
                    assert(rest@[e as int] != '=');
                    assert(false);
                }
            }
            let n = rest.unicode_len();
            if e >= 1 && e + 1 < n {
                let k = rest.substring_char(0, e);
                let v = rest.substring_char(e + 1, n);
                Some((String::from_str(k), String::from_str(v)))
            } else {
                None
            }
        },
        None => {
            proof {
                let fe = find_eq(rest@);
                if fe >= 0 {
                    assert(rest@[fe] == '=');
                    assert(false);
                }
            }
            None
        },
    }
}

/// Parses one wrapper argument, its `-clw-` prefix already stripped.
pub fn parse_argument(key: &str) -> (r: ParsedArgument)
    ensures
        r@ == parse_spec(key@),
{
    if crate::strutil::str_eq(key, "just-print") {
        return ParsedArgument::JustPrint;
    }
    if crate::strutil::str_eq(key, "before-print") {
        return ParsedArgument::BeforePrint;
    }
    if let Some(rest) = crate::strutil::strip_prefix_of(key, "log-file=") {
        return ParsedArgument::LogFile(String::from_str(rest));
    }
    if let Some(rest) = crate::strutil::strip_prefix_of(key, "command=") {
        return ParsedArgument::CommandPath(String::from_str(rest));
    }
    if let Some(rest) = crate::strutil::strip_prefix_of(key, "work-dir=") {
        return ParsedArgument::WorkDir(String::from_str(rest));
    }
    if let Some(rest) = crate::strutil::strip_prefix_of(key, "redirect-stdout=") {
        return ParsedArgument::RedirectStdout(String::from_str(rest));
    }
    if let Some(rest) = crate::strutil::strip_prefix_of(key, "redirect-stderr=") {
        return ParsedArgument::RedirectStderr(String::from_str(rest));
    }
    if let Some(rest) = crate::strutil::strip_prefix_of(key, "remove=") {
        return ParsedArgument::Transform(Directive::Remove { key: String::from_str(rest) });
    }
    if let Some(rest) = crate::strutil::strip_prefix_of(key, "replace-") {
        return match kv_split_exec(rest) {
            Some(kv) => ParsedArgument::Transform(
                Directive::Replace { key: kv.0, value: kv.1 },
            ),
            None => ParsedArgument::Unrecognized,
        };
    }
    if let Some(rest) = crate::strutil::strip_prefix_of(key, "static-link-compiler=") {
        return ParsedArgument::Transform(
            Directive::LinkMode { key: String::from_str(rest), dynamic: false, linker: false },
        );
    }
    if let Some(rest) = crate::strutil::strip_prefix_of(key, "dynamic-link-compiler=") {
        return ParsedArgument::Transform(
            Directive::LinkMode { key: String::from_str(rest), dynamic: true, linker: false },
        );
    }
    if let Some(rest) = crate::strutil::strip_prefix_of(key, "static-link=") {
        return ParsedArgument::Transform(
            Directive::LinkMode { key: String::from_str(rest), dynamic: false, linker: true },
        );
    }
    if let Some(rest) = crate::strutil::strip_prefix_of(key, "dynamic-link=") {
        return ParsedArgument::Transform(
            Directive::LinkMode { key: String::from_str(rest), dynamic: true, linker: true },
        );
    }
    if let Some(rest) = crate::strutil::strip_prefix_of(key, "move-front=") {
        return ParsedArgument::Transform(
            Directive::Relocate {
                value: String::from_str(rest),
                anchor: None,
                anchor_is_before: true,
                to_front: true,
            },
        );
    }
    if let Some(rest) = crate::strutil::strip_prefix_of(key, "move-front-before-") {
        return match kv_split_exec(rest) {
            Some(kv) => ParsedArgument::Transform(
                Directive::Relocate {
                    value: kv.1,
                    anchor: Some(kv.0),
                    anchor_is_before: true,
                    to_front: true,
                },
            ),
            None => ParsedArgument::Unrecognized,
        };
    }
    if let Some(rest) = crate::strutil::strip_prefix_of(key, "move-front-after-") {
        return match kv_split_exec(rest) {
            Some(kv) => ParsedArgument::Transform(
                Directive::Relocate {
                    value: kv.1,
                    anchor: Some(kv.0),
                    anchor_is_before: false,
                    to_front: true,
                },
            ),
            None => ParsedArgument::Unrecognized,
        };
    }
    if let Some(rest) = crate::strutil::strip_prefix_of(key, "move-back=") {
        return ParsedArgument::Transform(
            Directive::Relocate {
                value: String::from_str(rest),
                anchor: None,
                anchor_is_before: true,
                to_front: false,
            },
        );
    }
    if let Some(rest) = crate::strutil::strip_prefix_of(key, "move-back-before-") {
        return match kv_split_exec(rest) {
            Some(kv) => ParsedArgument::Transform(
                Directive::Relocate {
                    value: kv.1,
                    anchor: Some(kv.0),
                    anchor_is_before: true,
                    to_front: false,
                },
            ),
            None => ParsedArgument::Unrecognized,
        };
    }
    if let Some(rest) = crate::strutil::strip_prefix_of(key, "move-back-after-") {
        return match kv_split_exec(rest) {
            Some(kv) => ParsedArgument::Transform(
                Directive::Relocate {
                    value: kv.1,
                    anchor: Some(kv.0),
                    anchor_is_before: false,
                    to_front: false,
                },
            ),
            None => ParsedArgument::Unrecognized,
        };
    }
    ParsedArgument::Unrecognized
}

/// Applies one transformation to the store.
pub fn apply_directive(d: Directive, store: &mut ArgumentStore)
    ensures
        final(store)@ == apply_directive_spec(d@, old(store)@),
        final(store).wf() == old(store).wf(),
{
    match d {
        Directive::Remove { key } => {
            crate::transform::remove_argument_feature(key, None, store);
        },
        Directive::Replace { key, value } => {
            crate::transform::replace_argument_feature(key, Some(value), store);
        },
        Directive::LinkMode { key, dynamic, linker } => {
            let is_linker: Option<String> = if linker {
                Some(String::from_str("1"))
            } else {
                None
            };
            proof {
                assert((is_linker is Some) == linker);
            }
            if dynamic {
                crate::linkmode::dynamic_link_feature(key, is_linker, store);
            } else {
                crate::linkmode::static_link_feature(key, is_linker, store);
            }
        },
        Directive::Relocate { value, anchor, anchor_is_before, to_front } => {
            if anchor_is_before {
                if to_front {
                    crate::relocate::move_to_front_for_before_feature(value, anchor, store);
                } else {
                    crate::relocate::move_to_back_for_before_feature(value, anchor, store);
                }
            } else {
                if to_front {
                    crate::relocate::move_to_front_for_after_feature(value, anchor, store);
                } else {
                    crate::relocate::move_to_back_for_after_feature(value, anchor, store);
                }
            }
        },
    }
}

/// Applies a whole directive chain, strictly in order: each
/// transformation observes the store the earlier ones left.
pub fn apply_all(directives: Vec<Directive>, store: &mut ArgumentStore)
    ensures
        final(store)@ == apply_all_spec(directives.deep_view(), old(store)@),
        final(store).wf() == old(store).wf(),
{
    let ghost dv0 = directives.deep_view();
    let ghost sv0 = store@;
    let ghost wf0 = store.wf();
    let mut ds = directives;
    while ds.len() > 0
        invariant
            apply_all_spec(ds.deep_view(), store@) == apply_all_spec(dv0, sv0),
            store.wf() == wf0,
        decreases ds.len(),
    {
        let ghost dsv = ds.deep_view();
        let d = ds.remove(0);
        proof {
            assert(d@ == dsv[0]);
            assert(ds.deep_view() =~= dsv.drop_first());
        }
        apply_directive(d, store);
    }
    proof {
        assert(ds.deep_view().len() == 0);
    }
}

} // verus!
