use vstd::prelude::*;
use crate::definitions::Cursor;
use crate::definitions::FunctionView;
use crate::definitions::ParamView;
use crate::definitions::Primitive;
use crate::definitions::ScopeView;
use crate::definitions::TypeView;
use crate::error::ParseError;
use crate::names::lemma_position;
use crate::names::lemma_put;
use crate::names::lookup;
use crate::names::position;
use crate::params::default_of;
use crate::params::lemma_default_shortens;
use crate::params::parameters_of;
use crate::params::ParamsView;
use crate::params::parse_params;
use crate::reader::expressions_of;
use crate::reader::ExpressionView;
use crate::reader::is_comment;
use crate::reader::lemma_comment_shortens;
use crate::reader::lemma_expression_shortens;
use crate::reader::lemma_until_shortens;
use crate::reader::Nesting;
use crate::reader::ReaderView;
use crate::reader::scan_expression;
use crate::reader::scan_until;
use crate::reader::scan_word;
use crate::reader::skip_line;
use crate::text::is_capitalized;
use crate::text::lemma_split_path;
use crate::text::split_path;
use crate::tokenize::BuildView;
use crate::tokenize::child_linked;
use crate::tokenize::is_tree;
use crate::tokenize::lemma_with_child_well_formed;
use crate::tokenize::lemma_with_function_well_formed;
use crate::tokenize::parent_linked;
use crate::tokenize::TokenTree;
use crate::tokenize::TreeView;

verus! {

/// Closing a scope of a well-formed tree leaves it well formed.
pub proof fn lemma_close_well_formed(tree: TreeView)
    requires
        tree.well_formed(),
    ensures
        tree.close() matches Ok(closed) ==> closed.well_formed() && closed.scopes == tree.scopes,
{
    if tree.cursor > 0 {
        assert(parent_linked(tree.scopes, tree.cursor as int));
    }
}

/// Entering a scope of a well-formed tree leaves it well formed, and the
/// scope entered lies in the one that was left.
pub proof fn lemma_descend_well_formed(tree: TreeView, name: Seq<char>)
    requires
        tree.well_formed(),
    ensures
        tree.descend(name) matches Ok(entered) ==> entered.well_formed() && entered.scopes
            == tree.scopes && tree.cursor < entered.cursor && entered.current().parent == Some(
            tree.cursor,
        ),
{
    let children = tree.current().children;
    lemma_position(children, name);
    if let Some(k) = position(children, name) {
        assert(child_linked(tree.scopes, tree.cursor as int, k));
    }
}

/// The scope found or made under a name lies in the current scope of a
/// tree that is well formed again, and holds what it held.
pub proof fn lemma_child_or_new_well_formed(tree: TreeView, name: Seq<char>)
    requires
        tree.well_formed(),
        tree.scopes.len() < usize::MAX,
    ensures
        tree.child_or_new(name) matches Ok((after, child)) ==> {
            &&& after.well_formed()
            &&& after.cursor == tree.cursor
            &&& tree.cursor < child < after.scopes.len()
            &&& after.scopes[child as int].parent == Some(tree.cursor)
            &&& after.scopes[child as int].name == Some(name)
            &&& tree.scopes.len() <= after.scopes.len() <= tree.scopes.len() + 1
            &&& forall|i: int|
                0 <= i < tree.scopes.len() ==> (#[trigger] after.scopes[i]).parent
                    == tree.scopes[i].parent && after.scopes[i].name == tree.scopes[i].name
            &&& (lookup(tree.current().children, name) is Some ==> after == tree)
            &&& (lookup(tree.current().children, name) is None ==> after.scopes.len()
                == tree.scopes.len() + 1)
        },
{
    let children = tree.current().children;
    lemma_position(children, name);
    match position(children, name) {
        Some(k) => {
            assert(child_linked(tree.scopes, tree.cursor as int, k));
        },
        None => {
            lemma_with_child_well_formed(tree, name);
        },
    }
}

/// Entering scopes one after the other leaves a well-formed tree well
/// formed, and leads downwards.
pub proof fn lemma_descend_all_well_formed(tree: TreeView, segments: Seq<Seq<char>>)
    requires
        tree.well_formed(),
    ensures
        tree.descend_all(segments) matches Ok(entered) ==> entered.well_formed() && entered.scopes
            == tree.scopes && tree.cursor <= entered.cursor && (segments.len() > 0
            ==> tree.cursor < entered.cursor),
    decreases segments.len(),
{
    if segments.len() > 0 {
        lemma_descend_well_formed(tree, segments[0]);
        if let Ok(next) = tree.descend(segments[0]) {
            lemma_descend_all_well_formed(next, segments.drop_first());
        }
    }
}

/// Only the last segment of a qualified name may be new. Opening a
/// namespace leaves a well-formed tree well formed; it adds at most one
/// scope, and changes neither the name nor the place of a scope that was
/// there.
pub proof fn law_opening_adds_at_most_one_scope(tree: TreeView, name: Seq<char>)
    requires
        tree.well_formed(),
        tree.scopes.len() < usize::MAX,
    ensures
        tree.add_namespace(name) matches Ok(opened) ==> {
            &&& opened.well_formed()
            &&& tree.scopes.len() <= opened.scopes.len() <= tree.scopes.len() + 1
            &&& forall|i: int|
                0 <= i < tree.scopes.len() ==> (#[trigger] opened.scopes[i]).parent
                    == tree.scopes[i].parent && opened.scopes[i].name == tree.scopes[i].name
        },
{
    let path = split_path(name);
    lemma_descend_all_well_formed(tree, path.drop_last());
    if let Ok(parent) = tree.descend_all(path.drop_last()) {
        lemma_child_or_new_well_formed(parent, path.last());
    }
}

/// Declaring a function leaves a well-formed tree well formed, with the
/// scopes and the cursor where they were.
pub proof fn lemma_add_function_well_formed(
    tree: TreeView,
    name: Seq<char>,
    params: Option<Seq<char>>,
)
    requires
        tree.well_formed(),
    ensures
        tree.add_function(name, params) matches Ok(declared) ==> {
            &&& declared.well_formed()
            &&& declared.cursor == tree.cursor
            &&& declared.scopes.len() == tree.scopes.len()
            &&& forall|i: int|
                0 <= i < tree.scopes.len() ==> (#[trigger] declared.scopes[i]).parent
                    == tree.scopes[i].parent && declared.scopes[i].name == tree.scopes[i].name
        },
{
    if let Ok(list) = parameters_of(params) {
        lemma_with_function_well_formed(
            tree,
            name,
            FunctionView {
                name: Some(name),
                pos_params: list.positional,
                key_params: list.keyword,
                returns: Primitive::Unknown,
                scope: tree.cursor,
            },
        );
    }
}

/// How an expression changes the number of constructs that are open.
pub open spec fn depth_change(expression: ExpressionView) -> int {
    match expression {
        ExpressionView::ClassOpen(_) => 1,
        ExpressionView::FnDef(_, _) => 1,
        ExpressionView::Close => -1,
        _ => 0,
    }
}

/// The number of constructs that are open after `expressions`, where
/// `open` were open before; none if one of the expressions closes what was
/// not opened.
pub open spec fn balance(expressions: Seq<ExpressionView>, open: int) -> Option<int>
    decreases expressions.len(),
{
    if expressions.len() == 0 {
        Some(open)
    } else if open + depth_change(expressions[0]) < 0 {
        None
    } else {
        balance(expressions.drop_first(), open + depth_change(expressions[0]))
    }
}

/// The expressions are matched pairs: each close ends what one of them
/// opened, and nothing stays open.
pub open spec fn matched(expressions: Seq<ExpressionView>) -> bool {
    balance(expressions, 0) == Some(0int)
}

/// Each namespace that the expressions open is named by a single segment.
pub open spec fn plainly_named(expressions: Seq<ExpressionView>) -> bool {
    forall|i: int|
        0 <= i < expressions.len() ==> (#[trigger] expressions[i] matches ExpressionView::ClassOpen(
            name,
        ) ==> split_path(name).len() == 1)
}

/// The number of namespaces that the expressions open.
pub open spec fn namespaces_opened(expressions: Seq<ExpressionView>) -> nat
    decreases expressions.len(),
{
    if expressions.len() == 0 {
        0
    } else if expressions[0] is ClassOpen {
        1 + namespaces_opened(expressions.drop_first())
    } else {
        namespaces_opened(expressions.drop_first())
    }
}

/// No scope of `scopes` has the name `name`.
pub open spec fn unused(scopes: Seq<ScopeView>, name: Seq<char>) -> bool {
    forall|i: int| 0 <= i < scopes.len() ==> (#[trigger] scopes[i]).name != Some(name)
}

/// The namespaces that the expressions open have names of their own: no
/// two of them share a name, and none has the name of a scope of `scopes`.
pub open spec fn freshly_named(expressions: Seq<ExpressionView>, scopes: Seq<ScopeView>) -> bool {
    &&& forall|i: int|
        0 <= i < expressions.len() ==> (#[trigger] expressions[i] matches ExpressionView::ClassOpen(
            name,
        ) ==> unused(scopes, name))
    &&& forall|i: int, j: int|
        0 <= i < j < expressions.len() ==> (#[trigger] expressions[i]
            matches ExpressionView::ClassOpen(first) ==> (#[trigger] expressions[j]
            matches ExpressionView::ClassOpen(second) ==> first != second))
}

/// The scope that is current once the constructs `markers` are closed,
/// innermost first, where `cursor` is current now.
pub open spec fn enclosing(scopes: Seq<ScopeView>, cursor: Cursor, markers: Seq<Nesting>) -> Cursor
    decreases markers.len(),
{
    if markers.len() == 0 {
        cursor
    } else if markers.last() == Nesting::Class {
        match scopes[cursor as int].parent {
            Some(parent) => enclosing(scopes, parent, markers.drop_last()),
            None => enclosing(scopes, cursor, markers.drop_last()),
        }
    } else {
        enclosing(scopes, cursor, markers.drop_last())
    }
}

/// A tree that grows keeps each scope in the scope that encloses it.
pub proof fn lemma_enclosing_stable(
    before: Seq<ScopeView>,
    after: Seq<ScopeView>,
    cursor: Cursor,
    markers: Seq<Nesting>,
)
    requires
        is_tree(before),
        cursor < before.len() <= after.len(),
        forall|i: int| 0 <= i < before.len() ==> (#[trigger] after[i]).parent == before[i].parent,
    ensures
        enclosing(before, cursor, markers) == enclosing(after, cursor, markers),
    decreases markers.len(),
{
    if markers.len() > 0 {
        assert(after[cursor as int].parent == before[cursor as int].parent);
        if markers.last() == Nesting::Class {
            match before[cursor as int].parent {
                Some(parent) => {
                    assert(parent_linked(before, cursor as int));
                    lemma_enclosing_stable(before, after, parent, markers.drop_last());
                },
                None => {
                    lemma_enclosing_stable(before, after, cursor, markers.drop_last());
                },
            }
        } else {
            lemma_enclosing_stable(before, after, cursor, markers.drop_last());
        }
    }
}

/// One expression taken into a well-formed tree: the tree stays well
/// formed, the markers follow the expression, and the scope that encloses
/// what was open stays the same.
pub proof fn lemma_step(state: BuildView, expression: ExpressionView, base: int)
    requires
        state.tree.well_formed(),
        state.tree.scopes.len() < usize::MAX,
        0 <= base <= state.open.len(),
        base <= state.open.len() + depth_change(expression),
        expression matches ExpressionView::ClassOpen(name) ==> split_path(name).len() == 1,
    ensures
        state.step(expression) matches Ok(next) ==> {
            &&& next.tree.well_formed()
            &&& next.open.len() == state.open.len() + depth_change(expression)
            &&& next.open.take(base) == state.open.take(base)
            &&& enclosing(next.tree.scopes, next.tree.cursor, next.open.skip(base)) == enclosing(
                state.tree.scopes,
                state.tree.cursor,
                state.open.skip(base),
            )
            &&& state.tree.scopes.len() <= next.tree.scopes.len()
            &&& next.tree.scopes.len() <= state.tree.scopes.len() + (if expression is ClassOpen {
                1int
            } else {
                0int
            })
            &&& forall|i: int|
                0 <= i < state.tree.scopes.len() ==> (#[trigger] next.tree.scopes[i]).name
                    == state.tree.scopes[i].name
            &&& forall|i: int|
                state.tree.scopes.len() <= i < next.tree.scopes.len() ==> (
                #[trigger] next.tree.scopes[i]).name == Some(expression->ClassOpen_0)
            &&& (expression matches ExpressionView::ClassOpen(name) ==> unused(
                state.tree.scopes,
                name,
            ) ==> next.tree.scopes.len() == state.tree.scopes.len() + 1)
        },
{
    if let Ok(next) = state.step(expression) {
        let tree = state.tree;
        let markers = state.open.skip(base);
        match expression {
            ExpressionView::ClassOpen(name) => {
                let path = split_path(name);
                assert(path.drop_last() =~= Seq::<Seq<char>>::empty());
                assert(tree.descend_all(path.drop_last()) == Ok::<TreeView, ParseError>(tree));
                lemma_child_or_new_well_formed(tree, path.last());
                let (after, child) = tree.child_or_new(path.last())->Ok_0;
                assert(path.last() == name) by {
                    lemma_split_path(name);
                }
                assert(next.open.skip(base) =~= markers.push(Nesting::Class));
                assert(next.open.skip(base).drop_last() =~= markers);
                assert(next.open.take(base) =~= state.open.take(base));
                lemma_enclosing_stable(tree.scopes, after.scopes, tree.cursor, markers);
                if unused(tree.scopes, name) {
                    let children = tree.current().children;
                    lemma_position(children, name);
                    if let Some(k) = position(children, name) {
                        assert(child_linked(tree.scopes, tree.cursor as int, k));
                        assert(tree.scopes[children[k].1 as int].name == Some(name));
                    }
                }
            },
            ExpressionView::FnDef(name, params) => {
                lemma_add_function_well_formed(tree, name, params);
                assert(next.open.skip(base) =~= markers.push(Nesting::Function));
                assert(next.open.skip(base).drop_last() =~= markers);
                assert(next.open.take(base) =~= state.open.take(base));
                lemma_enclosing_stable(tree.scopes, next.tree.scopes, tree.cursor, markers);
            },
            ExpressionView::Close => {
                lemma_close_well_formed(tree);
                assert(next.open.skip(base) =~= markers.drop_last());
                assert(next.open.take(base) =~= state.open.take(base));
                assert(markers.last() == state.open.last());
            },
            _ => {},
        }
    }
}

/// Matched expressions taken into a well-formed tree leave as many
/// constructs open as there were, and the scope that encloses them current.
pub proof fn lemma_run(state: BuildView, expressions: Seq<ExpressionView>, base: int)
    requires
        state.tree.well_formed(),
        state.tree.scopes.len() + expressions.len() <= usize::MAX,
        0 <= base <= state.open.len(),
        balance(expressions, state.open.len() - base) is Some,
        plainly_named(expressions),
    ensures
        state.run(expressions) matches Ok(end) ==> {
            &&& end.tree.well_formed()
            &&& end.open.len() == base + balance(expressions, state.open.len() - base)->0
            &&& end.open.take(base) == state.open.take(base)
            &&& enclosing(end.tree.scopes, end.tree.cursor, end.open.skip(base)) == enclosing(
                state.tree.scopes,
                state.tree.cursor,
                state.open.skip(base),
            )
            &&& state.tree.scopes.len() <= end.tree.scopes.len()
            &&& end.tree.scopes.len() <= state.tree.scopes.len() + namespaces_opened(expressions)
            &&& (freshly_named(expressions, state.tree.scopes) ==> end.tree.scopes.len()
                == state.tree.scopes.len() + namespaces_opened(expressions))
        },
    decreases expressions.len(),
{
    if expressions.len() > 0 {
        let first = expressions[0];
        let rest = expressions.drop_first();
        lemma_step(state, first, base);
        if let Ok(next) = state.step(first) {
            assert(plainly_named(rest)) by {
                assert forall|i: int| 0 <= i < rest.len() implies (#[trigger] rest[i]
                    matches ExpressionView::ClassOpen(name) ==> split_path(name).len() == 1) by {
                    assert(rest[i] == expressions[i + 1]);
                }
            }
            lemma_run(next, rest, base);
            if freshly_named(expressions, state.tree.scopes) {
                assert(freshly_named(rest, next.tree.scopes)) by {
                    assert forall|i: int| 0 <= i < rest.len() implies (#[trigger] rest[i]
                        matches ExpressionView::ClassOpen(name) ==> unused(
                        next.tree.scopes,
                        name,
                    )) by {
                        assert(rest[i] == expressions[i + 1]);
                        if let ExpressionView::ClassOpen(name) = rest[i] {
                            assert(unused(state.tree.scopes, name));
                            assert forall|k: int| 0 <= k < next.tree.scopes.len() implies (
                            #[trigger] next.tree.scopes[k]).name != Some(name) by {
                                if k < state.tree.scopes.len() {
                                    assert(state.tree.scopes[k].name != Some(name));
                                } else {
                                    assert(first is ClassOpen);
                                }
                            }
                        }
                    }
                    assert forall|i: int, j: int| 0 <= i < j < rest.len() implies (
                    #[trigger] rest[i] matches ExpressionView::ClassOpen(a) ==> (#[trigger] rest[j]
                        matches ExpressionView::ClassOpen(b) ==> a != b)) by {
                        assert(rest[i] == expressions[i + 1]);
                        assert(rest[j] == expressions[j + 1]);
                    }
                }
            }
        }
    }
}

/// Round-trip nesting. Take matched pairs of openings and closes, each
/// namespace named by a single segment, into a well-formed tree. If none of
/// them fails, the cursor is back where it was, with the same constructs
/// open. The tree has grown by at most one scope for each namespace opened,
/// and by exactly one for each if their names are new and differ from each
/// other.
pub proof fn law_matched_nesting_round_trip(start: BuildView, expressions: Seq<ExpressionView>)
    requires
        start.tree.well_formed(),
        start.tree.scopes.len() + expressions.len() <= usize::MAX,
        matched(expressions),
        plainly_named(expressions),
        start.run(expressions) is Ok,
    ensures
        ({
            let end = start.run(expressions)->Ok_0;
            &&& end.tree.well_formed()
            &&& end.tree.cursor == start.tree.cursor
            &&& end.open == start.open
            &&& start.tree.scopes.len() <= end.tree.scopes.len() <= start.tree.scopes.len()
                + namespaces_opened(expressions)
            &&& (freshly_named(expressions, start.tree.scopes) ==> end.tree.scopes.len()
                == start.tree.scopes.len() + namespaces_opened(expressions))
        }),
{
    let base = start.open.len() as int;
    lemma_run(start, expressions, base);
    let end = start.run(expressions)->Ok_0;
    assert(end.open.take(base) =~= end.open);
    assert(start.open.take(base) =~= start.open);
    assert(end.open.skip(base) =~= Seq::<Nesting>::empty());
    assert(start.open.skip(base) =~= Seq::<Nesting>::empty());
}

/// A path that leads to a scope leads there again in a tree that differs
/// only at that scope and below it.
pub proof fn lemma_descend_all_again(
    tree: TreeView,
    after: Seq<ScopeView>,
    segments: Seq<Seq<char>>,
)
    requires
        tree.well_formed(),
        tree.descend_all(segments) is Ok,
        tree.scopes.len() <= after.len(),
        forall|i: int|
            0 <= i < tree.descend_all(segments)->Ok_0.cursor ==> (#[trigger] after[i]).children
                == tree.scopes[i].children,
    ensures
        (TreeView { scopes: after, cursor: tree.cursor }).descend_all(segments) == Ok::<
            TreeView,
            ParseError,
        >(TreeView { scopes: after, cursor: tree.descend_all(segments)->Ok_0.cursor }),
    decreases segments.len(),
{
    if segments.len() > 0 {
        lemma_descend_well_formed(tree, segments[0]);
        let next = tree.descend(segments[0])->Ok_0;
        lemma_descend_all_well_formed(next, segments.drop_first());
        assert(after[tree.cursor as int].children == tree.current().children);
        lemma_descend_all_again(next, after, segments.drop_first());
    }
}

/// Reopening changes nothing. Once a namespace has been opened, opening it
/// again from the same scope finds each scope of its name where it is:
/// the tree is as it was after the first opening, and the cursor is at the
/// same scope.
pub proof fn law_reopening_changes_nothing(tree: TreeView, name: Seq<char>)
    requires
        tree.well_formed(),
        tree.scopes.len() < usize::MAX,
        tree.add_namespace(name) is Ok,
    ensures
        ({
            let opened = tree.add_namespace(name)->Ok_0;
            opened.at(tree.cursor).add_namespace(name) == Ok::<TreeView, ParseError>(opened)
        }),
{
    let path = split_path(name);
    let outer = path.drop_last();
    let last = path.last();
    lemma_descend_all_well_formed(tree, outer);
    let parent = tree.descend_all(outer)->Ok_0;
    lemma_child_or_new_well_formed(parent, last);
    let (after, child) = parent.child_or_new(last)->Ok_0;
    let opened = after.at(child);
    let children = parent.current().children;
    lemma_position(children, last);
    lemma_put(children, last, child, last);
    assert forall|i: int| 0 <= i < parent.cursor implies (#[trigger] after.scopes[i]).children
        == tree.scopes[i].children by {}
    lemma_descend_all_again(tree, after.scopes, outer);
    assert(opened.at(tree.cursor) == (TreeView { scopes: after.scopes, cursor: tree.cursor }));
    let again = TreeView { scopes: after.scopes, cursor: parent.cursor };
    assert(again == after);
    assert(lookup(again.current().children, last) == Some(child));
}

/// A build takes the expressions of the text in their order. Its result
/// is the first error, whether an expression could not be taken into the
/// tree or the text could not be scanned further, and the tree after the
/// last expression where there is no error.
pub proof fn law_build_takes_expressions_in_order(state: BuildView, reader: ReaderView)
    ensures
        state.build(reader) == (match state.run(expressions_of(reader).0) {
            Ok(end) => match expressions_of(reader).1 {
                Some(e) => Err(e),
                None => Ok(end.tree),
            },
            Err(e) => Err(e),
        }),
    decreases reader.rest.len(),
{
    let (expression, next) = scan_expression(reader);
    if let Ok(Some(expression)) = expression {
        lemma_expression_shortens(reader);
        let all = expressions_of(reader).0;
        assert(all[0] == expression);
        assert(all.drop_first() =~= expressions_of(next).0);
        if let Ok(after) = state.step(expression) {
            law_build_takes_expressions_in_order(after, next);
        }
    }
}

/// The markers of the scanner and of the build go in step: where they
/// agree before an expression is read and taken into the tree, they agree
/// after it.
pub proof fn law_markers_stay_in_step(state: BuildView, reader: ReaderView)
    requires
        state.open == reader.nesting,
    ensures
        scan_expression(reader).0 matches Ok(Some(expression)) ==> (state.step(expression)
            matches Ok(next) ==> next.open == scan_expression(reader).1.nesting),
    decreases reader.rest.len(),
{
    let word = scan_word(reader.rest);
    if let Some(w) = word.value {
        if is_comment(w) {
            lemma_comment_shortens(reader.rest);
            law_markers_stay_in_step(
                state,
                ReaderView { rest: skip_line(word.rest), nesting: reader.nesting },
            );
        }
    }
}

/// Positional parameters come first. In a parameter list that is accepted,
/// no positional parameter is declared once a keyword parameter has been:
/// from there on the list only adds keyword parameters.
pub proof fn law_positional_parameters_come_first(s: Seq<char>, declared: ParamsView)
    ensures
        parse_params(s, declared) matches Ok(list) ==> list.keyword.len() >= declared.keyword.len()
            && (declared.keyword.len() > 0 ==> list.positional == declared.positional),
    decreases s.len(),
{
    let token = scan_until(s, TokenTree::PARAM_DELIM@);
    let name = token.value.0;
    if let Some(delimiter) = token.value.1 {
        let after = token.rest.skip(1);
        lemma_until_shortens(s, TokenTree::PARAM_DELIM@);
        if delimiter == ':' {
            lemma_default_shortens(after);
            let param = ParamView { t: TypeView::Unknown, default: default_of(after).value };
            lemma_put(declared.keyword, name, param, name);
            law_positional_parameters_come_first(
                default_of(after).rest,
                if name.len() == 0 {
                    declared
                } else {
                    declared.with_keyword(name, default_of(after).value)
                },
            );
        } else if name.len() > 0 && declared.keyword.len() > 0 {
        } else if delimiter != ')' {
            law_positional_parameters_come_first(
                after,
                if name.len() > 0 {
                    declared.with_positional()
                } else {
                    declared
                },
            );
        }
    }
}

/// An `end` with nothing open is unmatched: a scanner that has no marker
/// left fails on it.
pub proof fn law_end_without_opening_is_unmatched(reader: ReaderView)
    requires
        reader.nesting.len() == 0,
        scan_word(reader.rest).value == Some("end"@),
    ensures
        scan_expression(reader).0 == Err::<Option<ExpressionView>, ParseError>(
            ParseError::UnmatchedClose,
        ),
{
    reveal_strlit("end");
    reveal_strlit("class");
    reveal_strlit("module");
    reveal_strlit("def");
    assert("end"@[0] == 'e');
    assert("end"@.len() != "class"@.len());
    assert("end"@.len() != "module"@.len());
    assert("def"@[0] == 'd');
}

/// The scope of the whole program cannot be closed: a close at the root of
/// a well-formed tree is unmatched.
pub proof fn law_closing_the_root_is_unmatched(tree: TreeView)
    requires
        tree.well_formed(),
        tree.cursor == 0,
    ensures
        tree.close() == Err::<TreeView, ParseError>(ParseError::UnmatchedClose),
{
}

/// A qualified name leads through scopes that exist: where the first
/// segment is a constant name that the current scope does not hold, and
/// more segments follow, the namespace cannot be opened.
pub proof fn law_undefined_segment_is_refused(tree: TreeView, name: Seq<char>)
    requires
        split_path(name).len() >= 2,
        is_capitalized(split_path(name)[0]),
        lookup(tree.current().children, split_path(name)[0]) is None,
    ensures
        tree.add_namespace(name) == Err::<TreeView, ParseError>(
            ParseError::UndefinedNamespaceSegment,
        ),
{
    let outer = split_path(name).drop_last();
    assert(outer[0] == split_path(name)[0]);
}

} // verus!
