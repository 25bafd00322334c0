use vstd::prelude::*;
use crate::definitions::Cursor;
use crate::definitions::Function;
use crate::definitions::FunctionView;
use crate::definitions::Param;
use crate::definitions::Primitive;
use crate::definitions::Scope;
use crate::definitions::ScopeType;
use crate::definitions::ScopeView;
use crate::error::ParseError;
use crate::names::distinct;
use crate::names::lemma_position;
use crate::names::lemma_put;
use crate::names::lookup;
use crate::names::NameMap;
use crate::names::position;
use crate::names::put;
use crate::params::param_views;
use crate::params::parameters_of;
use crate::params::ParamsView;
use crate::params::parse_parameters;
use crate::reader::Expression;
use crate::reader::ExpressionView;
use crate::reader::FileReader;
use crate::reader::lemma_expression_shortens;
use crate::reader::Nesting;
use crate::reader::ReaderView;
use crate::reader::scan_expression;
use crate::reader::TolkienChars;
use crate::text::is_capitalized;
use crate::text::split_path;
use crate::text::split_segments;
use crate::text::starts_uppercase;
use crate::text::texts;

verus! {

/// The mathematical value of a [`TokenTree`]: the table of its scopes, the
/// scope of the whole program first, and the place of the current scope.
pub struct TreeView {
    pub scopes: Seq<ScopeView>,
    pub cursor: Cursor,
}

/// Entry `k` of the children of scope `p` names a later scope, which lies in
/// `p` under that name.
pub open spec fn child_linked(scopes: Seq<ScopeView>, p: int, k: int) -> bool {
    let entry = scopes[p].children[k];
    &&& p < entry.1 < scopes.len()
    &&& scopes[entry.1 as int].parent == Some(p as usize)
    &&& scopes[entry.1 as int].name == Some(entry.0)
}

/// Scope `i` lies in an earlier scope, which lists it under its name.
pub open spec fn parent_linked(scopes: Seq<ScopeView>, i: int) -> bool {
    match (scopes[i].parent, scopes[i].name) {
        (Some(p), Some(name)) => p < i && lookup(scopes[p as int].children, name) == Some(
            i as usize,
        ),
        _ => false,
    }
}

/// Entry `k` of the functions of scope `p` holds a function of that name,
/// which knows `p` as the scope that it was declared in.
pub open spec fn function_owned(scopes: Seq<ScopeView>, p: int, k: int) -> bool {
    let entry = scopes[p].funs[k];
    entry.1.name == Some(entry.0) && entry.1.scope == p
}

/// The scopes form a tree under the first of them: each other scope is
/// found by its name in the scope it lies in, and no two scopes of one
/// scope share a name. Nor do two functions of one scope, and each function
/// knows its scope.
pub open spec fn is_tree(scopes: Seq<ScopeView>) -> bool {
    &&& 0 < scopes.len() <= usize::MAX
    &&& scopes[0].parent is None
    &&& forall|i: int| 0 < i < scopes.len() ==> #[trigger] parent_linked(scopes, i)
    &&& forall|p: int, k: int|
        0 <= p < scopes.len() && 0 <= k < scopes[p].children.len() ==> #[trigger] child_linked(
            scopes,
            p,
            k,
        )
    &&& forall|p: int| 0 <= p < scopes.len() ==> distinct(#[trigger] scopes[p].children)
    &&& forall|p: int, k: int|
        0 <= p < scopes.len() && 0 <= k < scopes[p].funs.len() ==> #[trigger] function_owned(
            scopes,
            p,
            k,
        )
    &&& forall|p: int| 0 <= p < scopes.len() ==> distinct(#[trigger] scopes[p].funs)
}

impl TreeView {
    /// The scopes form a tree, and the cursor is at one of them.
    pub open spec fn well_formed(self) -> bool {
        is_tree(self.scopes) && self.cursor < self.scopes.len()
    }

    /// The scope at the cursor.
    pub open spec fn current(self) -> ScopeView {
        self.scopes[self.cursor as int]
    }

    /// The tree with the cursor at `cursor`.
    pub open spec fn at(self, cursor: Cursor) -> TreeView {
        TreeView { scopes: self.scopes, cursor }
    }

    /// A tree of one scope, that of the whole program.
    pub open spec fn root_only() -> TreeView {
        TreeView { scopes: seq![ScopeView::empty(None, None)], cursor: 0 }
    }

    /// Closing the current scope: the cursor moves to the scope that it lies
    /// in. The scope of the whole program cannot be closed.
    pub open spec fn close(self) -> Result<TreeView, ParseError> {
        match self.current().parent {
            Some(parent) => Ok(self.at(parent)),
            None => Err(ParseError::UnmatchedClose),
        }
    }

    /// Entering the scope `name` of the current scope, which has to exist.
    pub open spec fn descend(self, name: Seq<char>) -> Result<TreeView, ParseError> {
        if !is_capitalized(name) {
            Err(ParseError::MalformedConstantName)
        } else {
            match lookup(self.current().children, name) {
                Some(child) => Ok(self.at(child)),
                None => Err(ParseError::UndefinedNamespaceSegment),
            }
        }
    }

    /// The tree with a new class `name` in the current scope.
    pub open spec fn with_child(self, name: Seq<char>) -> TreeView {
        let child = self.scopes.len() as usize;
        let current = self.current();
        TreeView {
            scopes: self.scopes.update(
                self.cursor as int,
                ScopeView { children: put(current.children, name, child), ..current },
            ).push(
                ScopeView {
                    scope_type: ScopeType::Class,
                    ..ScopeView::empty(Some(name), Some(self.cursor))
                },
            ),
            cursor: self.cursor,
        }
    }

    /// The scope `name` of the current scope, made if it is not there yet,
    /// and the tree that holds it. The cursor stays.
    pub open spec fn child_or_new(self, name: Seq<char>) -> Result<(TreeView, Cursor), ParseError> {
        if !is_capitalized(name) {
            Err(ParseError::MalformedConstantName)
        } else {
            match lookup(self.current().children, name) {
                Some(child) => Ok((self, child)),
                None => Ok((self.with_child(name), self.scopes.len() as usize)),
            }
        }
    }

    /// Entering the scopes `segments` one after the other, each of which has
    /// to exist.
    pub open spec fn descend_all(self, segments: Seq<Seq<char>>) -> Result<TreeView, ParseError>
        decreases segments.len(),
    {
        if segments.len() == 0 {
            Ok(self)
        } else {
            match self.descend(segments[0]) {
                Ok(tree) => tree.descend_all(segments.drop_first()),
                Err(e) => Err(e),
            }
        }
    }

    /// Opening the namespace `name`: all segments of the name but the last
    /// are entered, and have to exist; the scope of the last one is made
    /// where it is missing, and the cursor moves to it.
    pub open spec fn add_namespace(self, name: Seq<char>) -> Result<TreeView, ParseError> {
        let path = split_path(name);
        match self.descend_all(path.drop_last()) {
            Ok(parent) => match parent.child_or_new(path.last()) {
                Ok((tree, child)) => Ok(tree.at(child)),
                Err(e) => Err(e),
            },
            Err(e) => Err(e),
        }
    }

    /// The tree with `function` in the current scope, under its name and in
    /// the place of a function of that name.
    pub open spec fn with_function(self, name: Seq<char>, function: FunctionView) -> TreeView {
        let current = self.current();
        TreeView {
            scopes: self.scopes.update(
                self.cursor as int,
                ScopeView { funs: put(current.funs, name, function), ..current },
            ),
            cursor: self.cursor,
        }
    }

    /// Declaring the function `name` with the parameter list `params` in the
    /// current scope. The cursor stays.
    pub open spec fn add_function(self, name: Seq<char>, params: Option<Seq<char>>) -> Result<
        TreeView,
        ParseError,
    > {
        match parameters_of(params) {
            Ok(list) => Ok(
                self.with_function(
                    name,
                    FunctionView {
                        name: Some(name),
                        pos_params: list.positional,
                        key_params: list.keyword,
                        returns: Primitive::Unknown,
                        scope: self.cursor,
                    },
                ),
            ),
            Err(e) => Err(e),
        }
    }
}

/// The state of a build: the tree so far and a marker for each construct
/// that the source has open, innermost last.
pub struct BuildView {
    pub tree: TreeView,
    pub open: Seq<Nesting>,
}

impl BuildView {
    /// The start of a build: the scope of the whole program, nothing open.
    pub open spec fn start() -> BuildView {
        BuildView { tree: TreeView::root_only(), open: Seq::empty() }
    }

    /// The state after one expression. A namespace that opens becomes the
    /// current scope; a function is declared in the current scope, which
    /// stays. A close ends what was opened last: it leaves the current scope
    /// if that was a namespace, and only ends the function otherwise.
    /// Assignments and unknown expressions change nothing.
    pub open spec fn step(self, expression: ExpressionView) -> Result<BuildView, ParseError> {
        match expression {
            ExpressionView::ClassOpen(name) => match self.tree.add_namespace(name) {
                Ok(tree) => Ok(BuildView { tree, open: self.open.push(Nesting::Class) }),
                Err(e) => Err(e),
            },
            ExpressionView::FnDef(name, params) => match self.tree.add_function(name, params) {
                Ok(tree) => Ok(BuildView { tree, open: self.open.push(Nesting::Function) }),
                Err(e) => Err(e),
            },
            ExpressionView::Close => {
                if self.open.len() == 0 {
                    Err(ParseError::UnmatchedClose)
                } else if self.open.last() == Nesting::Class {
                    match self.tree.close() {
                        Ok(tree) => Ok(BuildView { tree, open: self.open.drop_last() }),
                        Err(e) => Err(e),
                    }
                } else {
                    Ok(BuildView { tree: self.tree, open: self.open.drop_last() })
                }
            },
            _ => Ok(self),
        }
    }

    /// The state after the expressions, one after the other, up to the
    /// first that fails.
    pub open spec fn run(self, expressions: Seq<ExpressionView>) -> Result<BuildView, ParseError>
        decreases expressions.len(),
    {
        if expressions.len() == 0 {
            Ok(self)
        } else {
            match self.step(expressions[0]) {
                Ok(next) => next.run(expressions.drop_first()),
                Err(e) => Err(e),
            }
        }
    }

    /// The tree at the end of the text of `reader`: each expression is read
    /// and taken into the tree before the next is read, and the first error
    /// of either kind ends the build.
    pub open spec fn build(self, reader: ReaderView) -> Result<TreeView, ParseError>
        decreases reader.rest.len(),
    {
        let (expression, next) = scan_expression(reader);
        match expression {
            Ok(Some(expression)) => match self.step(expression) {
                Ok(state) => {
                    proof {
                        lemma_expression_shortens(reader);
                    }
                    state.build(next)
                },
                Err(e) => Err(e),
            },
            Ok(None) => Ok(self.tree),
            Err(e) => Err(e),
        }
    }
}

/// The tree of scopes of the source text `source`.
pub open spec fn index_of(source: Seq<char>) -> Result<TreeView, ParseError> {
    BuildView::start().build(ReaderView { rest: source, nesting: Seq::empty() })
}

/// A function more in the current scope keeps the tree well formed.
pub proof fn lemma_with_function_well_formed(
    tree: TreeView,
    name: Seq<char>,
    function: FunctionView,
)
    requires
        tree.well_formed(),
        function.name == Some(name),
        function.scope == tree.cursor,
    ensures
        tree.with_function(name, function).well_formed(),
{
    let after = tree.with_function(name, function).scopes;
    let cursor = tree.cursor as int;
    let before = tree.current().funs;
    lemma_position(before, name);
    lemma_put(before, name, function, name);
    assert forall|i: int| 0 < i < after.len() implies #[trigger] parent_linked(after, i) by {
        assert(parent_linked(tree.scopes, i));
    }
    assert forall|p: int, k: int|
        0 <= p < after.len() && 0 <= k < after[p].children.len() implies #[trigger] child_linked(
        after,
        p,
        k,
    ) by {
        assert(child_linked(tree.scopes, p, k));
    }
    assert forall|p: int| 0 <= p < after.len() implies distinct(#[trigger] after[p].children) by {
        assert(distinct(tree.scopes[p].children));
    }
    assert forall|p: int, k: int|
        0 <= p < after.len() && 0 <= k < after[p].funs.len() implies #[trigger] function_owned(
        after,
        p,
        k,
    ) by {
        if p == cursor {
            if position(before, name) == Some(k) || k == before.len() {
            } else {
                assert(function_owned(tree.scopes, p, k));
            }
        } else {
            assert(function_owned(tree.scopes, p, k));
        }
    }
    assert forall|p: int| 0 <= p < after.len() implies distinct(#[trigger] after[p].funs) by {
        assert(distinct(tree.scopes[p].funs));
    }
}

/// A new scope under the cursor keeps the tree well formed.
pub proof fn lemma_with_child_well_formed(tree: TreeView, name: Seq<char>)
    requires
        tree.well_formed(),
        lookup(tree.current().children, name) is None,
        tree.scopes.len() < usize::MAX,
    ensures
        tree.with_child(name).well_formed(),
{
    let after = tree.with_child(name).scopes;
    let child = tree.scopes.len() as int;
    let cursor = tree.cursor as int;
    let before = tree.current().children;
    lemma_position(before, name);
    lemma_put(before, name, child as usize, name);
    assert(after[cursor].children == before.push((name, child as usize)));
    assert forall|i: int| 0 < i < after.len() implies #[trigger] parent_linked(after, i) by {
        if i < child {
            assert(parent_linked(tree.scopes, i));
            let p = tree.scopes[i].parent->0 as int;
            let n = tree.scopes[i].name->0;
            if p == cursor {
                lemma_put(before, name, child as usize, n);
            }
        }
    }
    assert forall|p: int, k: int|
        0 <= p < after.len() && 0 <= k < after[p].children.len() implies #[trigger] child_linked(
        after,
        p,
        k,
    ) by {
        if p == child {
        } else if p == cursor && k == before.len() {
        } else {
            assert(child_linked(tree.scopes, p, k));
        }
    }
    assert forall|p: int| 0 <= p < after.len() implies distinct(#[trigger] after[p].children) by {
        if p < child {
            assert(distinct(tree.scopes[p].children));
        }
    }
    assert forall|p: int, k: int|
        0 <= p < after.len() && 0 <= k < after[p].funs.len() implies #[trigger] function_owned(
        after,
        p,
        k,
    ) by {
        assert(function_owned(tree.scopes, p, k));
    }
    assert forall|p: int| 0 <= p < after.len() implies distinct(#[trigger] after[p].funs) by {
        if p < child {
            assert(distinct(tree.scopes[p].funs));
        }
    }
}

/// The tree of scopes of a source text, with the place of the scope that is
/// being filled.
#[derive(Debug, PartialEq, Eq)]
pub struct TokenTree {
    scopes: Vec<Scope>,
    cursor: Cursor,
}

impl View for TokenTree {
    type V = TreeView;

    closed spec fn view(&self) -> TreeView {
        TreeView { scopes: self.scopes@.map_values(|scope: Scope| scope@), cursor: self.cursor }
    }
}

impl TokenTree {
    /// The characters that bound a token of a parameter list.
    pub const PARAM_DELIM: [char; 3] = [':', ',', ')'];

    /// A tree of one scope, that of the whole program, with the cursor at it.
    pub fn new() -> (tree: TokenTree)
        ensures
            tree@ == TreeView::root_only(),
            tree@.well_formed(),
    {
        let mut scopes = Vec::new();
        scopes.push(Scope::default());
        let tree = TokenTree { scopes, cursor: 0 };
        assert(tree@.scopes =~= seq![ScopeView::empty(None, None)]);
        tree
    }

    /// The place of the scope of the whole program.
    pub fn root(&self) -> (root: Cursor)
        ensures
            root == 0,
    {
        0
    }

    /// The place of the current scope.
    pub fn cursor(&self) -> (cursor: Cursor)
        ensures
            cursor == self@.cursor,
    {
        self.cursor
    }

    /// The number of scopes, that of the whole program counted.
    pub fn len(&self) -> (count: usize)
        ensures
            count == self@.scopes.len(),
    {
        self.scopes.len()
    }

    /// The scope at `place`.
    pub fn scope(&self, place: Cursor) -> (scope: Option<&Scope>)
        ensures
            match scope {
                Some(scope) => place < self@.scopes.len() && scope@ == self@.scopes[place as int],
                None => place >= self@.scopes.len(),
            },
    {
        if place < self.scopes.len() {
            Some(&self.scopes[place])
        } else {
            None
        }
    }

    /// Closes the current scope.
    pub fn close_scope(&mut self) -> (closed: Result<(), ParseError>)
        requires
            old(self)@.well_formed(),
        ensures
            final(self)@.well_formed(),
            match old(self)@.close() {
                Ok(tree) => closed is Ok && final(self)@ == tree,
                Err(e) => closed == Err::<(), ParseError>(e) && final(self)@ == old(self)@,
            },
    {
        match self.scopes[self.cursor].parent {
            Some(parent) => {
                proof {
                    if self.cursor > 0 {
                        assert(parent_linked(self@.scopes, self.cursor as int));
                    }
                }
                self.cursor = parent;
                Ok(())
            },
            None => Err(ParseError::UnmatchedClose),
        }
    }

    /// Enters the scope `child_name` of the current scope.
    pub fn descend_scope(&mut self, child_name: &str) -> (entered: Result<(), ParseError>)
        requires
            old(self)@.well_formed(),
        ensures
            final(self)@.well_formed(),
            match old(self)@.descend(child_name@) {
                Ok(tree) => entered is Ok && final(self)@ == tree,
                Err(e) => entered == Err::<(), ParseError>(e) && final(self)@ == old(self)@,
            },
    {
        if !starts_uppercase(child_name) {
            return Err(ParseError::MalformedConstantName);
        }
        let found = match self.scopes[self.cursor].children.get(child_name) {
            Some(child) => Some(*child),
            None => None,
        };
        match found {
            Some(child) => {
                proof {
                    let children = self@.current().children;
                    lemma_position(children, child_name@);
                    assert(child_linked(
                        self@.scopes,
                        self.cursor as int,
                        position(children, child_name@)->0,
                    ));
                }
                self.cursor = child;
                Ok(())
            },
            None => Err(ParseError::UndefinedNamespaceSegment),
        }
    }

    /// Finds the scope `child_name` of the current scope, or makes it, a
    /// class. The cursor stays.
    pub fn descend_scope_create(&mut self, child_name: &str) -> (child: Result<Cursor, ParseError>)
        requires
            old(self)@.well_formed(),
        ensures
            final(self)@.well_formed(),
            match old(self)@.child_or_new(child_name@) {
                Ok((tree, place)) => child == Ok::<Cursor, ParseError>(place) && final(self)@ == tree,
                Err(e) => child == Err::<Cursor, ParseError>(e) && final(self)@ == old(self)@,
            },
    {
        if !starts_uppercase(child_name) {
            return Err(ParseError::MalformedConstantName);
        }
        let found = match self.scopes[self.cursor].children.get(child_name) {
            Some(child) => Some(*child),
            None => None,
        };
        match found {
            Some(child) => Ok(child),
            None => {
                let child = self.scopes.len();
                let mut scope = Scope::new(Some(child_name), Some(self.cursor));
                scope.scope_type = ScopeType::Class;
                self.scopes[self.cursor].children.insert(child_name.to_owned(), child);
                self.scopes.push(scope);
                proof {
                    assert(self.scopes.len() == child + 1);
                    assert(self@.scopes =~= old(self)@.with_child(child_name@).scopes);
                    lemma_with_child_well_formed(old(self)@, child_name@);
                }
                Ok(child)
            },
        }
    }

    /// Declares the function `name` in the current scope, with the
    /// parameters that the text `params` lists. A function of that name
    /// that is there gives way. Where the list is in error, nothing has
    /// changed.
    pub fn add_function(&mut self, name: String, params: Option<String>) -> (added: Result<
        (),
        ParseError,
    >)
        requires
            old(self)@.well_formed(),
        ensures
            final(self)@.well_formed(),
            match old(self)@.add_function(name@, params.deep_view()) {
                Ok(tree) => added is Ok && final(self)@ == tree,
                Err(e) => added == Err::<(), ParseError>(e) && final(self)@ == old(self)@,
            },
    {
        let (pos_params, key_params) = match params {
            Some(text) => match parse_parameters(text) {
                Ok(lists) => lists,
                Err(e) => {
                    return Err(e);
                },
            },
            None => {
                let none: Vec<Param> = Vec::new();
                assert(param_views(none@) =~= ParamsView::empty().positional);
                (none, NameMap::new())
            },
        };
        let function = Function {
            name: Some(name.clone()),
            pos_params,
            key_params,
            returns: Primitive::Unknown,
            scope: self.cursor,
        };
        proof {
            lemma_with_function_well_formed(old(self)@, name@, function@);
        }
        self.scopes[self.cursor].funs.insert(name, function);
        assert(self@.scopes =~= old(self)@.with_function(name@, function@).scopes);
        Ok(())
    }

    /// Opens the namespace `name`, whose segments `::` separates, and moves
    /// the cursor to it. Where that fails, nothing has changed.
    pub fn add_namespace(&mut self, name: String) -> (opened: Result<(), ParseError>)
        requires
            old(self)@.well_formed(),
        ensures
            final(self)@.well_formed(),
            match old(self)@.add_namespace(name@) {
                Ok(tree) => opened is Ok && final(self)@ == tree,
                Err(e) => opened == Err::<(), ParseError>(e) && final(self)@ == old(self)@,
            },
    {
        let segments = split_segments(name.as_str());
        let start = self.cursor;
        let last = segments.len() - 1;
        let ghost path = split_path(name@);
        let ghost outer = path.drop_last();
        let mut i: usize = 0;
        proof {
            assert(outer.skip(0) =~= outer);
        }
        while i < last
            invariant
                old(self)@.well_formed(),
                path == split_path(name@),
                outer.len() == last,
                last == segments.len() - 1,
                texts(segments@) == path,
                outer == path.drop_last(),
                i <= last,
                self@.well_formed(),
                self@.scopes == old(self)@.scopes,
                start == old(self)@.cursor,
                old(self)@.descend_all(outer) == self@.descend_all(outer.skip(i as int)),
            decreases last - i,
        {
            let ghost before = self@;
            proof {
                assert(outer.skip(i as int)[0] == segments@[i as int]@);
                assert(outer.skip(i as int).drop_first() =~= outer.skip(i + 1));
            }
            match self.descend_scope(segments[i].as_str()) {
                Ok(_) => {},
                Err(e) => {
                    assert(before.descend_all(outer.skip(i as int)) == Err::<TreeView, ParseError>(e));
                    self.cursor = start;
                    assert(self@ == old(self)@);
                    return Err(e);
                },
            }
            i = i + 1;
        }
        proof {
            assert(outer.skip(last as int) =~= Seq::<Seq<char>>::empty());
            assert(path.last() == segments@[last as int]@);
        }
        let ghost parent = self@;
        match self.descend_scope_create(segments[last].as_str()) {
            Ok(child) => {
                proof {
                    let children = parent.current().children;
                    lemma_position(children, path.last());
                    if position(children, path.last()) is Some {
                        assert(child_linked(
                            parent.scopes,
                            parent.cursor as int,
                            position(children, path.last())->0,
                        ));
                    }
                }
                self.cursor = child;
                Ok(())
            },
            Err(e) => {
                self.cursor = start;
                assert(self@ == old(self)@);
                Err(e)
            },
        }
    }
}

/// Takes one expression into the tree. `open` holds a marker for each
/// construct that is open.
fn apply(tree: &mut TokenTree, open: &mut Vec<Nesting>, expression: Expression) -> (applied:
    Result<(), ParseError>)
    requires
        old(tree)@.well_formed(),
    ensures
        final(tree)@.well_formed(),
        match (BuildView { tree: old(tree)@, open: old(open)@ }).step(expression@) {
            Ok(state) => applied is Ok && final(tree)@ == state.tree && final(open)@ == state.open,
            Err(e) => applied == Err::<(), ParseError>(e) && final(tree)@ == old(tree)@,
        },
{
    match expression {
        Expression::ClassOpen(name) => {
            match tree.add_namespace(name) {
                Ok(_) => {
                    open.push(Nesting::Class);
                    Ok(())
                },
                Err(e) => Err(e),
            }
        },
        Expression::FnDef(name, params) => {
            match tree.add_function(name, params) {
                Ok(_) => {
                    open.push(Nesting::Function);
                    Ok(())
                },
                Err(e) => Err(e),
            }
        },
        Expression::Close => {
            match open.pop() {
                None => Err(ParseError::UnmatchedClose),
                Some(Nesting::Class) => {
                    match tree.close_scope() {
                        Ok(_) => Ok(()),
                        Err(e) => Err(e),
                    }
                },
                Some(Nesting::Function) => Ok(()),
            }
        },
        _ => Ok(()),
    }
}

/// Builds the tree of scopes of the text that `reader` has left to read.
fn build(reader: &mut FileReader) -> (tree: Result<TokenTree, ParseError>)
    ensures
        match BuildView::start().build(old(reader)@) {
            Ok(t) => tree matches Ok(built) && built@ == t && t.well_formed(),
            Err(e) => tree matches Err(error) && error == e,
        },
{
    let mut app = TokenTree::new();
    let mut open: Vec<Nesting> = Vec::new();
    loop
        invariant
            app@.well_formed(),
            BuildView::start().build(old(reader)@) == (BuildView { tree: app@, open: open@ }).build(
                reader@,
            ),
        decreases reader@.rest.len(),
    {
        proof {
            lemma_expression_shortens(reader@);
        }
        let expression = match reader.next_expression() {
            Ok(Some(expression)) => expression,
            Ok(None) => {
                return Ok(app);
            },
            Err(e) => {
                return Err(e);
            },
        };
        match apply(&mut app, &mut open, expression) {
            Ok(_) => {},
            Err(e) => {
                return Err(e);
            },
        }
    }
}

/// Builds the tree of scopes of a source text.
pub fn tokenize(source: String) -> (tree: Result<TokenTree, ParseError>)
    ensures
        match index_of(source@) {
            Ok(t) => tree matches Ok(built) && built@ == t && t.well_formed(),
            Err(e) => tree matches Err(error) && error == e,
        },
{
    let mut reader = FileReader::from(source);
    proof {
        assert(reader@ == (ReaderView { rest: source@, nesting: Seq::empty() })) by {
            assert(reader@.nesting =~= Seq::<Nesting>::empty());
        }
    }
    build(&mut reader)
}

} // verus!
