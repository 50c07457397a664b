//! The modelled compiler context the lowering works against: interned
//! symbols, tag names, patterns, layouts and the expression IR that the
//! decision-tree compiler emits into.
//!
//! Each data type that owns heap data comes with a `...View` counterpart
//! over `Seq`, reached through `deep_view`; the contracts of the lowering
//! are stated over those views.

use vstd::prelude::*;

verus! {

/// An interned identifier. The lowering only ever compares symbols and
/// passes them through, so the model lists the well-known names the
/// compiler distinguishes plus an index for everything else.
#[derive(Clone, Copy, Debug, PartialEq, Eq, Structural)]
pub enum Symbol {
    NumI8,
    NumU8,
    NumI16,
    NumU16,
    NumI32,
    NumU32,
    NumI64,
    NumNat,
    NumU64,
    NumI128,
    NumU128,
    NumDec,
    NumF32,
    NumF64,
    NumNum,
    NumInt,
    NumFrac,
    IntEqI64,
    IntEqI8,
    FloatEq,
    StrEq,
    Ident(u64),
}

impl DeepView for Symbol {
    type V = Symbol;

    open spec fn deep_view(&self) -> Symbol {
        *self
    }
}

/// The name of a tagged-union constructor.
#[derive(Debug)]
pub enum TagName {
    /// A name visible in the surface syntax.
    Global(String),
    /// A name the compiler made up, identified by symbol.
    Private(Symbol),
}

#[verifier::ext_equal]
pub enum TagNameView {
    Global(Seq<char>),
    Private(Symbol),
}

impl DeepView for TagName {
    type V = TagNameView;

    open spec fn deep_view(&self) -> TagNameView {
        match self {
            TagName::Global(s) => TagNameView::Global(s@),
            TagName::Private(s) => TagNameView::Private(*s),
        }
    }
}

/// One alternative of a tagged union.
#[derive(Debug)]
pub struct Ctor {
    pub name: TagName,
    pub tag_id: u8,
    pub arity: u64,
}

#[verifier::ext_equal]
pub struct CtorView {
    pub name: TagNameView,
    pub tag_id: u8,
    pub arity: u64,
}

impl DeepView for Ctor {
    type V = CtorView;

    open spec fn deep_view(&self) -> CtorView {
        CtorView { name: self.name.deep_view(), tag_id: self.tag_id, arity: self.arity }
    }
}

/// A tagged union: all the sibling constructors a value at some position
/// can carry. A union with exactly one alternative is a newtype wrapper
/// whose constructor carries no information.
#[derive(Debug)]
pub struct Union {
    pub alternatives: Vec<Ctor>,
}

#[verifier::ext_equal]
pub struct UnionView {
    pub alternatives: Seq<CtorView>,
}

impl DeepView for Union {
    type V = UnionView;

    open spec fn deep_view(&self) -> UnionView {
        UnionView {
            alternatives: Seq::new(
                self.alternatives@.len(),
                |i: int| self.alternatives@[i].deep_view(),
            ),
        }
    }
}

/// The memory shapes the lowering distinguishes when it emits IR.
#[derive(Debug)]
pub enum Builtin {
    Int64,
    Float64,
    /// A boolean, carrying the names of its two tags.
    Bool(TagName, TagName),
    /// A byte-sized enumeration, carrying the name of each tag.
    Byte(Vec<(TagName, u8)>),
    Str,
}

#[verifier::ext_equal]
pub enum BuiltinView {
    Int64,
    Float64,
    Bool(TagNameView, TagNameView),
    Byte(Seq<(TagNameView, u8)>),
    Str,
}

impl DeepView for Builtin {
    type V = BuiltinView;

    open spec fn deep_view(&self) -> BuiltinView {
        match self {
            Builtin::Int64 => BuiltinView::Int64,
            Builtin::Float64 => BuiltinView::Float64,
            Builtin::Bool(f, t) => BuiltinView::Bool(f.deep_view(), t.deep_view()),
            Builtin::Byte(tags) => BuiltinView::Byte(
                Seq::new(tags@.len(), |i: int| (tags@[i].0.deep_view(), tags@[i].1)),
            ),
            Builtin::Str => BuiltinView::Str,
        }
    }
}

/// The layout of a value, as far as the lowering needs it.
#[derive(Debug)]
pub enum Layout {
    Builtin(Builtin),
    Struct(Vec<Layout>),
}

#[verifier::ext_equal]
pub enum LayoutView {
    Builtin(BuiltinView),
    Struct(Seq<LayoutView>),
}

impl DeepView for Layout {
    type V = LayoutView;

    open spec fn deep_view(&self) -> LayoutView
        decreases self,
    {
        match self {
            Layout::Builtin(b) => LayoutView::Builtin(b.deep_view()),
            Layout::Struct(fields) => LayoutView::Struct(layout_views(fields@)),
        }
    }
}

/// The views of a sequence of layouts.
pub open spec fn layout_views(ls: Seq<Layout>) -> Seq<LayoutView>
    decreases ls,
{
    if ls.len() == 0 {
        Seq::empty()
    } else {
        layout_views(ls.subrange(0, ls.len() - 1)).push(ls[ls.len() - 1].deep_view())
    }
}

/// `layout_views` is the pointwise view.
pub proof fn lemma_layout_views(ls: Seq<Layout>)
    ensures
        layout_views(ls).len() == ls.len(),
        forall|i: int| 0 <= i < ls.len() ==> #[trigger] layout_views(ls)[i] == ls[i].deep_view(),
    decreases ls.len(),
{
    if ls.len() > 0 {
        let sub = ls.subrange(0, ls.len() - 1);
        lemma_layout_views(sub);
        assert(layout_views(ls) == layout_views(sub).push(ls[ls.len() - 1].deep_view()));
        assert forall|i: int| 0 <= i < ls.len() implies #[trigger] layout_views(ls)[i] == ls[i].deep_view() by {
            if i < ls.len() - 1 {
                assert(layout_views(ls)[i] == layout_views(sub)[i]);
                assert(sub[i] == ls[i]);
            }
        }
    }
}

/// A surface pattern, as handed over by the pattern elaborator.
#[derive(Debug)]
pub enum Pattern {
    /// Binds the whole value; never tested.
    Identifier(Symbol),
    Underscore,
    /// A binding that shadows an earlier one; never tested.
    Shadowed(Symbol),
    /// A pattern an earlier phase refused, carried as an opaque region.
    UnsupportedPattern(u64),
    /// Structural record decomposition; its fields are handled by outer
    /// logic before reaching the lowering, so it is irrefutable here.
    RecordDestructure(Vec<Symbol>, Layout),
    /// A tagged-union constructor applied to argument patterns.
    AppliedTag {
        tag_name: TagName,
        tag_id: u8,
        arguments: Vec<(Pattern, Layout)>,
        union: Union,
    },
    BitLiteral(bool),
    EnumLiteral { tag_id: u8, enum_size: u8 },
    IntLiteral(i64),
    /// A float literal, stored as its bit pattern so it stays comparable
    /// and hashable, and matches stay bit-exact.
    FloatLiteral(u64),
    StrLiteral(String),
}

#[verifier::ext_equal]
pub enum PatternView {
    Identifier(Symbol),
    Underscore,
    Shadowed(Symbol),
    UnsupportedPattern(u64),
    RecordDestructure(Seq<Symbol>, LayoutView),
    AppliedTag {
        tag_name: TagNameView,
        tag_id: u8,
        arguments: Seq<(PatternView, LayoutView)>,
        union: UnionView,
    },
    BitLiteral(bool),
    EnumLiteral { tag_id: u8, enum_size: u8 },
    IntLiteral(i64),
    FloatLiteral(u64),
    StrLiteral(Seq<char>),
}

impl DeepView for Pattern {
    type V = PatternView;

    open spec fn deep_view(&self) -> PatternView
        decreases self,
    {
        match self {
            Pattern::Identifier(s) => PatternView::Identifier(*s),
            Pattern::Underscore => PatternView::Underscore,
            Pattern::Shadowed(s) => PatternView::Shadowed(*s),
            Pattern::UnsupportedPattern(region) => PatternView::UnsupportedPattern(*region),
            Pattern::RecordDestructure(fields, layout) => PatternView::RecordDestructure(
                fields@,
                layout.deep_view(),
            ),
            Pattern::AppliedTag { tag_name, tag_id, arguments, union } => PatternView::AppliedTag {
                tag_name: tag_name.deep_view(),
                tag_id: *tag_id,
                arguments: pattern_arg_views(arguments@),
                union: union.deep_view(),
            },
            Pattern::BitLiteral(b) => PatternView::BitLiteral(*b),
            Pattern::EnumLiteral { tag_id, enum_size } => PatternView::EnumLiteral {
                tag_id: *tag_id,
                enum_size: *enum_size,
            },
            Pattern::IntLiteral(v) => PatternView::IntLiteral(*v),
            Pattern::FloatLiteral(v) => PatternView::FloatLiteral(*v),
            Pattern::StrLiteral(s) => PatternView::StrLiteral(s@),
        }
    }
}

/// The views of a sequence of constructor arguments.
pub open spec fn pattern_arg_views(args: Seq<(Pattern, Layout)>) -> Seq<(PatternView, LayoutView)>
    decreases args,
{
    if args.len() == 0 {
        Seq::empty()
    } else {
        pattern_arg_views(args.subrange(0, args.len() - 1)).push(
            (args[args.len() - 1].0.deep_view(), args[args.len() - 1].1.deep_view()),
        )
    }
}

/// `pattern_arg_views` is the pointwise view.
pub proof fn lemma_pattern_arg_views(args: Seq<(Pattern, Layout)>)
    ensures
        pattern_arg_views(args).len() == args.len(),
        forall|i: int| 0 <= i < args.len() ==> #[trigger] pattern_arg_views(args)[i] == (
            args[i].0.deep_view(),
            args[i].1.deep_view(),
        ),
    decreases args.len(),
{
    if args.len() > 0 {
        let sub = args.subrange(0, args.len() - 1);
        lemma_pattern_arg_views(sub);
        assert(pattern_arg_views(args) == pattern_arg_views(sub).push(
            (args[args.len() - 1].0.deep_view(), args[args.len() - 1].1.deep_view()),
        ));
        assert forall|i: int| 0 <= i < args.len() implies #[trigger] pattern_arg_views(args)[i] == (
            args[i].0.deep_view(),
            args[i].1.deep_view(),
        ) by {
            if i < args.len() - 1 {
                assert(pattern_arg_views(args)[i] == pattern_arg_views(sub)[i]);
                assert(sub[i] == args[i]);
            }
        }
    }
}

/// An access path from the scrutinee root to the value a test looks at.
#[derive(Debug)]
pub enum Path {
    /// A field or positional sub-value of the value at `path`.
    Index { index: u64, path: Box<Path> },
    /// Sees through a single-alternative constructor; emits no test.
    Unbox(Box<Path>),
    /// The scrutinee itself.
    Empty,
}

impl DeepView for Path {
    type V = Path;

    open spec fn deep_view(&self) -> Path {
        *self
    }
}


/// The expression IR the lowering emits into, as far as it needs it: a
/// thin constructor interface of loads, literals, accesses, calls,
/// conditionals, switches and jumps.
#[derive(Debug)]
pub enum Expr {
    /// Load the named value.
    Load(Symbol),
    Int(i64),
    /// A float literal, carried as its bit pattern.
    Float(u64),
    Byte(u8),
    Str(String),
    /// Jump to the label.
    Jump(u64),
    /// Call the named equality primitive with the given operands.
    CallByName(Symbol, Vec<(Expr, Layout)>),
    /// Access the field at `index`; `is_unwrapped` elides the tag word of
    /// a single-alternative union.
    AccessAtIndex { index: u64, field_layouts: Vec<Layout>, expr: Box<Expr>, is_unwrapped: bool },
    Cond {
        cond: Box<Expr>,
        cond_layout: Layout,
        pass: Box<Expr>,
        fail: Box<Expr>,
        ret_layout: Layout,
    },
    Switch {
        cond: Box<Expr>,
        cond_layout: Layout,
        branches: Vec<(u64, Expr)>,
        default_branch: Box<Expr>,
        ret_layout: Layout,
    },
}

#[verifier::ext_equal]
pub enum ExprView {
    Load(Symbol),
    Int(i64),
    Float(u64),
    Byte(u8),
    Str(Seq<char>),
    Jump(u64),
    CallByName(Symbol, Seq<(ExprView, LayoutView)>),
    AccessAtIndex {
        index: u64,
        field_layouts: Seq<LayoutView>,
        expr: Box<ExprView>,
        is_unwrapped: bool,
    },
    Cond {
        cond: Box<ExprView>,
        cond_layout: LayoutView,
        pass: Box<ExprView>,
        fail: Box<ExprView>,
        ret_layout: LayoutView,
    },
    Switch {
        cond: Box<ExprView>,
        cond_layout: LayoutView,
        branches: Seq<(u64, ExprView)>,
        default_branch: Box<ExprView>,
        ret_layout: LayoutView,
    },
}

impl DeepView for Expr {
    type V = ExprView;

    open spec fn deep_view(&self) -> ExprView
        decreases self,
    {
        match self {
            Expr::Load(s) => ExprView::Load(*s),
            Expr::Int(v) => ExprView::Int(*v),
            Expr::Float(v) => ExprView::Float(*v),
            Expr::Byte(v) => ExprView::Byte(*v),
            Expr::Str(v) => ExprView::Str(v@),
            Expr::Jump(l) => ExprView::Jump(*l),
            Expr::CallByName(s, args) => ExprView::CallByName(*s, expr_arg_views(args@)),
            Expr::AccessAtIndex { index, field_layouts, expr, is_unwrapped } => {
                ExprView::AccessAtIndex {
                    index: *index,
                    field_layouts: layout_views(field_layouts@),
                    expr: Box::new((**expr).deep_view()),
                    is_unwrapped: *is_unwrapped,
                }
            }
            Expr::Cond { cond, cond_layout, pass, fail, ret_layout } => ExprView::Cond {
                cond: Box::new((**cond).deep_view()),
                cond_layout: cond_layout.deep_view(),
                pass: Box::new((**pass).deep_view()),
                fail: Box::new((**fail).deep_view()),
                ret_layout: ret_layout.deep_view(),
            },
            Expr::Switch { cond, cond_layout, branches, default_branch, ret_layout } => {
                ExprView::Switch {
                    cond: Box::new((**cond).deep_view()),
                    cond_layout: cond_layout.deep_view(),
                    branches: switch_branch_views(branches@),
                    default_branch: Box::new((**default_branch).deep_view()),
                    ret_layout: ret_layout.deep_view(),
                }
            }
        }
    }
}

/// The views of a sequence of call operands.
pub open spec fn expr_arg_views(args: Seq<(Expr, Layout)>) -> Seq<(ExprView, LayoutView)>
    decreases args,
{
    if args.len() == 0 {
        Seq::empty()
    } else {
        expr_arg_views(args.subrange(0, args.len() - 1)).push(
            (args[args.len() - 1].0.deep_view(), args[args.len() - 1].1.deep_view()),
        )
    }
}

/// `expr_arg_views` is the pointwise view.
pub proof fn lemma_expr_arg_views(args: Seq<(Expr, Layout)>)
    ensures
        expr_arg_views(args).len() == args.len(),
        forall|i: int| 0 <= i < args.len() ==> #[trigger] expr_arg_views(args)[i] == (
            args[i].0.deep_view(),
            args[i].1.deep_view(),
        ),
    decreases args.len(),
{
    if args.len() > 0 {
        let sub = args.subrange(0, args.len() - 1);
        lemma_expr_arg_views(sub);
        assert(expr_arg_views(args) == expr_arg_views(sub).push(
            (args[args.len() - 1].0.deep_view(), args[args.len() - 1].1.deep_view()),
        ));
        assert forall|i: int| 0 <= i < args.len() implies #[trigger] expr_arg_views(args)[i] == (
            args[i].0.deep_view(),
            args[i].1.deep_view(),
        ) by {
            if i < args.len() - 1 {
                assert(expr_arg_views(args)[i] == expr_arg_views(sub)[i]);
                assert(sub[i] == args[i]);
            }
        }
    }
}

/// The views of a sequence of switch arms.
pub open spec fn switch_branch_views(bs: Seq<(u64, Expr)>) -> Seq<(u64, ExprView)>
    decreases bs,
{
    if bs.len() == 0 {
        Seq::empty()
    } else {
        switch_branch_views(bs.subrange(0, bs.len() - 1)).push(
            (bs[bs.len() - 1].0, bs[bs.len() - 1].1.deep_view()),
        )
    }
}

/// `switch_branch_views` is the pointwise view.
pub proof fn lemma_switch_branch_views(bs: Seq<(u64, Expr)>)
    ensures
        switch_branch_views(bs).len() == bs.len(),
        forall|i: int| 0 <= i < bs.len() ==> #[trigger] switch_branch_views(bs)[i] == (
            bs[i].0,
            bs[i].1.deep_view(),
        ),
    decreases bs.len(),
{
    if bs.len() > 0 {
        let sub = bs.subrange(0, bs.len() - 1);
        lemma_switch_branch_views(sub);
        assert(switch_branch_views(bs) == switch_branch_views(sub).push(
            (bs[bs.len() - 1].0, bs[bs.len() - 1].1.deep_view()),
        ));
        assert forall|i: int| 0 <= i < bs.len() implies #[trigger] switch_branch_views(bs)[i] == (
            bs[i].0,
            bs[i].1.deep_view(),
        ) by {
            if i < bs.len() - 1 {
                assert(switch_branch_views(bs)[i] == switch_branch_views(sub)[i]);
                assert(sub[i] == bs[i]);
            }
        }
    }
}


impl Clone for TagName {
    fn clone(&self) -> (r: Self)
        ensures
            r.deep_view() == self.deep_view(),
    {
        match self {
            TagName::Global(s) => TagName::Global(s.clone()),
            TagName::Private(s) => TagName::Private(*s),
        }
    }
}

impl Clone for Ctor {
    fn clone(&self) -> (r: Self)
        ensures
            r.deep_view() == self.deep_view(),
    {
        Ctor { name: self.name.clone(), tag_id: self.tag_id, arity: self.arity }
    }
}

impl Clone for Union {
    fn clone(&self) -> (r: Self)
        ensures
            r.deep_view() == self.deep_view(),
    {
        let mut alternatives: Vec<Ctor> = Vec::new();
        let mut i: usize = 0;
        while i < self.alternatives.len()
            invariant
                i == alternatives@.len() <= self.alternatives@.len(),
                forall|j: int| 0 <= j < i ==> #[trigger] alternatives@[j].deep_view()
                    == self.alternatives@[j].deep_view(),
            decreases self.alternatives@.len() - i,
        {
            alternatives.push(self.alternatives[i].clone());
            i = i + 1;
        }
        let r = Union { alternatives };
        proof {
            assert(r.deep_view().alternatives =~= self.deep_view().alternatives);
            assert(r.deep_view() =~= self.deep_view());
        }
        r
    }
}

impl Clone for Builtin {
    #[verifier::loop_isolation(false)]
    fn clone(&self) -> (r: Self)
        ensures
            r.deep_view() == self.deep_view(),
    {
        match self {
            Builtin::Int64 => Builtin::Int64,
            Builtin::Float64 => Builtin::Float64,
            Builtin::Bool(f, t) => Builtin::Bool(f.clone(), t.clone()),
            Builtin::Byte(tags) => {
                let mut out: Vec<(TagName, u8)> = Vec::new();
                let mut i: usize = 0;
                while i < tags.len()
                    invariant
                        i == out@.len() <= tags@.len(),
                        forall|j: int| 0 <= j < i ==> #[trigger] out@[j].0.deep_view()
                            == tags@[j].0.deep_view() && out@[j].1 == tags@[j].1,
                    decreases tags@.len() - i,
                {
                    let pair = &tags[i];
                    out.push((pair.0.clone(), pair.1));
                    i = i + 1;
                }
                let r = Builtin::Byte(out);
                proof {
                    assert(r.deep_view()->Byte_0 =~= self.deep_view()->Byte_0);
                    assert(r.deep_view() =~= self.deep_view());
                }
                r
            }
            Builtin::Str => Builtin::Str,
        }
    }
}

impl Clone for Layout {
    #[verifier::loop_isolation(false)]
    fn clone(&self) -> (r: Self)
        ensures
            r.deep_view() == self.deep_view(),
        decreases self,
    {
        match self {
            Layout::Builtin(b) => Layout::Builtin(b.clone()),
            Layout::Struct(fields) => {
                let mut out: Vec<Layout> = Vec::new();
                let mut i: usize = 0;
                while i < fields.len()
                    invariant
                        i == out@.len() <= fields@.len(),
                        forall|j: int| 0 <= j < i ==> #[trigger] out@[j].deep_view()
                            == fields@[j].deep_view(),
                    decreases fields@.len() - i,
                {
                    out.push(fields[i].clone());
                    i = i + 1;
                }
                let r = Layout::Struct(out);
                proof {
                    lemma_layout_views(out@);
                    lemma_layout_views(fields@);
                    assert(layout_views(out@) =~= layout_views(fields@));
                }
                r
            }
        }
    }
}

impl Clone for Path {
    fn clone(&self) -> (r: Self)
        ensures
            r == *self,
        decreases self,
    {
        match self {
            Path::Empty => Path::Empty,
            Path::Unbox(inner) => Path::Unbox(Box::new((**inner).clone())),
            Path::Index { index, path } => Path::Index {
                index: *index,
                path: Box::new((**path).clone()),
            },
        }
    }
}

impl Clone for Pattern {
    #[verifier::loop_isolation(false)]
    fn clone(&self) -> (r: Self)
        ensures
            r.deep_view() == self.deep_view(),
        decreases self,
    {
        match self {
            Pattern::Identifier(s) => Pattern::Identifier(*s),
            Pattern::Underscore => Pattern::Underscore,
            Pattern::Shadowed(s) => Pattern::Shadowed(*s),
            Pattern::UnsupportedPattern(region) => Pattern::UnsupportedPattern(*region),
            Pattern::RecordDestructure(fields, layout) => {
                let mut out: Vec<Symbol> = Vec::new();
                let mut i: usize = 0;
                while i < fields.len()
                    invariant
                        i == out@.len() <= fields@.len(),
                        forall|j: int| 0 <= j < i ==> #[trigger] out@[j] == fields@[j],
                    decreases fields@.len() - i,
                {
                    out.push(fields[i]);
                    i = i + 1;
                }
                let r = Pattern::RecordDestructure(out, layout.clone());
                proof {
                    assert(out@ =~= fields@);
                }
                r
            }
            Pattern::AppliedTag { tag_name, tag_id, arguments, union } => {
                let mut out: Vec<(Pattern, Layout)> = Vec::new();
                let mut i: usize = 0;
                while i < arguments.len()
                    invariant
                        i == out@.len() <= arguments@.len(),
                        forall|j: int| 0 <= j < i ==> #[trigger] out@[j].0.deep_view()
                            == arguments@[j].0.deep_view() && out@[j].1.deep_view()
                            == arguments@[j].1.deep_view(),
                    decreases arguments@.len() - i,
                {
                    let pair = &arguments[i];
                    out.push((pair.0.clone(), pair.1.clone()));
                    i = i + 1;
                }
                let r = Pattern::AppliedTag {
                    tag_name: tag_name.clone(),
                    tag_id: *tag_id,
                    arguments: out,
                    union: union.clone(),
                };
                proof {
                    lemma_pattern_arg_views(out@);
                    lemma_pattern_arg_views(arguments@);
                    assert(pattern_arg_views(out@) =~= pattern_arg_views(arguments@));
                }
                r
            }
            Pattern::BitLiteral(b) => Pattern::BitLiteral(*b),
            Pattern::EnumLiteral { tag_id, enum_size } => Pattern::EnumLiteral {
                tag_id: *tag_id,
                enum_size: *enum_size,
            },
            Pattern::IntLiteral(v) => Pattern::IntLiteral(*v),
            Pattern::FloatLiteral(v) => Pattern::FloatLiteral(*v),
            Pattern::StrLiteral(v) => Pattern::StrLiteral(v.clone()),
        }
    }
}

impl Clone for Expr {
    #[verifier::loop_isolation(false)]
    fn clone(&self) -> (r: Self)
        ensures
            r.deep_view() == self.deep_view(),
        decreases self,
    {
        match self {
            Expr::Load(s) => Expr::Load(*s),
            Expr::Int(v) => Expr::Int(*v),
            Expr::Float(v) => Expr::Float(*v),
            Expr::Byte(v) => Expr::Byte(*v),
            Expr::Str(v) => Expr::Str(v.clone()),
            Expr::Jump(l) => Expr::Jump(*l),
            Expr::CallByName(sym, args) => {
                let mut out: Vec<(Expr, Layout)> = Vec::new();
                let mut i: usize = 0;
                while i < args.len()
                    invariant
                        i == out@.len() <= args@.len(),
                        forall|j: int| 0 <= j < i ==> #[trigger] out@[j].0.deep_view()
                            == args@[j].0.deep_view() && out@[j].1.deep_view()
                            == args@[j].1.deep_view(),
                    decreases args@.len() - i,
                {
                    let pair = &args[i];
                    out.push((pair.0.clone(), pair.1.clone()));
                    i = i + 1;
                }
                let r = Expr::CallByName(*sym, out);
                proof {
                    lemma_expr_arg_views(out@);
                    lemma_expr_arg_views(args@);
                    assert(expr_arg_views(out@) =~= expr_arg_views(args@));
                }
                r
            }
            Expr::AccessAtIndex { index, field_layouts, expr, is_unwrapped } => {
                let mut out: Vec<Layout> = Vec::new();
                let mut i: usize = 0;
                while i < field_layouts.len()
                    invariant
                        i == out@.len() <= field_layouts@.len(),
                        forall|j: int| 0 <= j < i ==> #[trigger] out@[j].deep_view()
                            == field_layouts@[j].deep_view(),
                    decreases field_layouts@.len() - i,
                {
                    out.push(field_layouts[i].clone());
                    i = i + 1;
                }
                let r = Expr::AccessAtIndex {
                    index: *index,
                    field_layouts: out,
                    expr: Box::new((**expr).clone()),
                    is_unwrapped: *is_unwrapped,
                };
                proof {
                    lemma_layout_views(out@);
                    lemma_layout_views(field_layouts@);
                    assert(layout_views(out@) =~= layout_views(field_layouts@));
                }
                r
            }
            Expr::Cond { cond, cond_layout, pass, fail, ret_layout } => Expr::Cond {
                cond: Box::new((**cond).clone()),
                cond_layout: cond_layout.clone(),
                pass: Box::new((**pass).clone()),
                fail: Box::new((**fail).clone()),
                ret_layout: ret_layout.clone(),
            },
            Expr::Switch { cond, cond_layout, branches, default_branch, ret_layout } => {
                let mut out: Vec<(u64, Expr)> = Vec::new();
                let mut i: usize = 0;
                while i < branches.len()
                    invariant
                        i == out@.len() <= branches@.len(),
                        forall|j: int| 0 <= j < i ==> #[trigger] out@[j].0 == branches@[j].0
                            && out@[j].1.deep_view() == branches@[j].1.deep_view(),
                    decreases branches@.len() - i,
                {
                    let pair = &branches[i];
                    out.push((pair.0, pair.1.clone()));
                    i = i + 1;
                }
                let r = Expr::Switch {
                    cond: Box::new((**cond).clone()),
                    cond_layout: cond_layout.clone(),
                    branches: out,
                    default_branch: Box::new((**default_branch).clone()),
                    ret_layout: ret_layout.clone(),
                };
                proof {
                    lemma_switch_branch_views(out@);
                    lemma_switch_branch_views(branches@);
                    assert(switch_branch_views(out@) =~= switch_branch_views(branches@));
                }
                r
            }
        }
    }
}


/// Structural equality of tag names, as the views state it.
pub fn tag_name_eq(a: &TagName, b: &TagName) -> (r: bool)
    ensures
        r == (a.deep_view() == b.deep_view()),
{
    match (a, b) {
        (TagName::Global(x), TagName::Global(y)) => *x == *y,
        (TagName::Private(x), TagName::Private(y)) => *x == *y,
        _ => false,
    }
}

/// Structural equality of constructors.
pub fn ctor_eq(a: &Ctor, b: &Ctor) -> (r: bool)
    ensures
        r == (a.deep_view() == b.deep_view()),
{
    tag_name_eq(&a.name, &b.name) && a.tag_id == b.tag_id && a.arity == b.arity
}

/// Structural equality of unions.
#[verifier::loop_isolation(false)]
pub fn union_eq(a: &Union, b: &Union) -> (r: bool)
    ensures
        r == (a.deep_view() == b.deep_view()),
{
    if a.alternatives.len() != b.alternatives.len() {
        proof {
            assert(a.deep_view().alternatives.len() == a.alternatives@.len());
            assert(b.deep_view().alternatives.len() == b.alternatives@.len());
        }
        return false;
    }
    let mut i: usize = 0;
    while i < a.alternatives.len()
        invariant
            0 <= i <= a.alternatives@.len() == b.alternatives@.len(),
            forall|j: int| 0 <= j < i ==> #[trigger] a.alternatives@[j].deep_view()
                == b.alternatives@[j].deep_view(),
        decreases a.alternatives@.len() - i,
    {
        if !ctor_eq(&a.alternatives[i], &b.alternatives[i]) {
            proof {
                assert(a.deep_view().alternatives[i as int] != b.deep_view().alternatives[i as int]);
            }
            return false;
        }
        i = i + 1;
    }
    proof {
        assert(a.deep_view().alternatives =~= b.deep_view().alternatives);
        assert(a.deep_view() =~= b.deep_view());
    }
    true
}

/// Structural equality of builtin layouts.
#[verifier::loop_isolation(false)]
pub fn builtin_eq(a: &Builtin, b: &Builtin) -> (r: bool)
    ensures
        r == (a.deep_view() == b.deep_view()),
{
    match (a, b) {
        (Builtin::Int64, Builtin::Int64) => true,
        (Builtin::Float64, Builtin::Float64) => true,
        (Builtin::Str, Builtin::Str) => true,
        (Builtin::Bool(f1, t1), Builtin::Bool(f2, t2)) => tag_name_eq(f1, f2) && tag_name_eq(
            t1,
            t2,
        ),
        (Builtin::Byte(x), Builtin::Byte(y)) => {
            if x.len() != y.len() {
                proof {
                    assert(a.deep_view()->Byte_0.len() != b.deep_view()->Byte_0.len());
                }
                return false;
            }
            let mut i: usize = 0;
            while i < x.len()
                invariant
                    0 <= i <= x@.len() == y@.len(),
                    a == Builtin::Byte(*x) && b == Builtin::Byte(*y),
                    forall|j: int| 0 <= j < i ==> #[trigger] x@[j].0.deep_view()
                        == y@[j].0.deep_view() && x@[j].1 == y@[j].1,
                decreases x@.len() - i,
            {
                let p1 = &x[i];
                let p2 = &y[i];
                if !(tag_name_eq(&p1.0, &p2.0) && p1.1 == p2.1) {
                    proof {
                        assert(a.deep_view()->Byte_0[i as int] != b.deep_view()->Byte_0[i as int]);
                    }
                    return false;
                }
                i = i + 1;
            }
            proof {
                assert(a.deep_view()->Byte_0 =~= b.deep_view()->Byte_0);
            }
            true
        }
        _ => false,
    }
}

/// Structural equality of layouts.
#[verifier::loop_isolation(false)]
pub fn layout_eq(a: &Layout, b: &Layout) -> (r: bool)
    ensures
        r == (a.deep_view() == b.deep_view()),
    decreases a,
{
    match (a, b) {
        (Layout::Builtin(x), Layout::Builtin(y)) => builtin_eq(x, y),
        (Layout::Struct(x), Layout::Struct(y)) => {
            proof {
                lemma_layout_views(x@);
                lemma_layout_views(y@);
            }
            if x.len() != y.len() {
                return false;
            }
            let mut i: usize = 0;
            while i < x.len()
                invariant
                    0 <= i <= x@.len() == y@.len(),
                    a == Layout::Struct(*x) && b == Layout::Struct(*y),
                    forall|j: int| 0 <= j < i ==> #[trigger] x@[j].deep_view()
                        == y@[j].deep_view(),
                decreases x@.len() - i,
            {
                if !layout_eq(&x[i], &y[i]) {
                    proof {
                        assert(layout_views(x@)[i as int] != layout_views(y@)[i as int]);
                    }
                    return false;
                }
                i = i + 1;
            }
            proof {
                assert(layout_views(x@) =~= layout_views(y@));
            }
            true
        }
        _ => false,
    }
}

/// Structural equality of paths.
pub fn path_eq(a: &Path, b: &Path) -> (r: bool)
    ensures
        r == (a == b),
    decreases a,
{
    match (a, b) {
        (Path::Empty, Path::Empty) => true,
        (Path::Unbox(x), Path::Unbox(y)) => path_eq(x, y),
        (Path::Index { index: i1, path: p1 }, Path::Index { index: i2, path: p2 }) => *i1 == *i2
            && path_eq(p1, p2),
        _ => false,
    }
}

/// Structural equality of patterns.
#[verifier::loop_isolation(false)]
pub fn pattern_eq(a: &Pattern, b: &Pattern) -> (r: bool)
    ensures
        r == (a.deep_view() == b.deep_view()),
    decreases a,
{
    match (a, b) {
        (Pattern::Identifier(x), Pattern::Identifier(y)) => *x == *y,
        (Pattern::Underscore, Pattern::Underscore) => true,
        (Pattern::Shadowed(x), Pattern::Shadowed(y)) => *x == *y,
        (Pattern::UnsupportedPattern(x), Pattern::UnsupportedPattern(y)) => *x == *y,
        (Pattern::RecordDestructure(f1, l1), Pattern::RecordDestructure(f2, l2)) => {
            if f1.len() != f2.len() {
                return false;
            }
            let mut i: usize = 0;
            while i < f1.len()
                invariant
                    0 <= i <= f1@.len() == f2@.len(),
                    forall|j: int| 0 <= j < i ==> #[trigger] f1@[j] == f2@[j],
                decreases f1@.len() - i,
            {
                if !(f1[i] == f2[i]) {
                    return false;
                }
                i = i + 1;
            }
            proof {
                assert(f1@ =~= f2@);
            }
            layout_eq(l1, l2)
        }
        (
            Pattern::AppliedTag { tag_name: n1, tag_id: t1, arguments: a1, union: u1 },
            Pattern::AppliedTag { tag_name: n2, tag_id: t2, arguments: a2, union: u2 },
        ) => {
            proof {
                lemma_pattern_arg_views(a1@);
                lemma_pattern_arg_views(a2@);
            }
            if !(tag_name_eq(n1, n2) && t1 == t2 && union_eq(u1, u2)) {
                return false;
            }
            if a1.len() != a2.len() {
                return false;
            }
            let mut i: usize = 0;
            while i < a1.len()
                invariant
                    0 <= i <= a1@.len() == a2@.len(),
                    forall|j: int| 0 <= j < i ==> #[trigger] a1@[j].0.deep_view()
                        == a2@[j].0.deep_view() && a1@[j].1.deep_view() == a2@[j].1.deep_view(),
                decreases a1@.len() - i,
            {
                let p1 = &a1[i];
                let p2 = &a2[i];
                if !(pattern_eq(&p1.0, &p2.0) && layout_eq(&p1.1, &p2.1)) {
                    proof {
                        assert(pattern_arg_views(a1@)[i as int] != pattern_arg_views(
                            a2@,
                        )[i as int]);
                    }
                    return false;
                }
                i = i + 1;
            }
            proof {
                assert(pattern_arg_views(a1@) =~= pattern_arg_views(a2@));
            }
            true
        }
        (Pattern::BitLiteral(x), Pattern::BitLiteral(y)) => *x == *y,
        (
            Pattern::EnumLiteral { tag_id: t1, enum_size: s1 },
            Pattern::EnumLiteral { tag_id: t2, enum_size: s2 },
        ) => *t1 == *t2 && *s1 == *s2,
        (Pattern::IntLiteral(x), Pattern::IntLiteral(y)) => *x == *y,
        (Pattern::FloatLiteral(x), Pattern::FloatLiteral(y)) => *x == *y,
        (Pattern::StrLiteral(x), Pattern::StrLiteral(y)) => *x == *y,
        _ => false,
    }
}


/// The pointwise deep view of a sequence of values.
pub open spec fn seq_deep_view<T: DeepView>(s: Seq<T>) -> Seq<T::V> {
    Seq::new(s.len(), |i: int| s[i].deep_view())
}

/// A vector's deep view is the pointwise view of its elements.
pub proof fn lemma_vec_deep_view<T: DeepView>(v: &Vec<T>)
    ensures
        v.deep_view() =~= seq_deep_view(v@),
        v.deep_view().len() == v@.len(),
        forall|i: int| 0 <= i < v@.len() ==> #[trigger] v.deep_view()[i] == v@[i].deep_view(),
{
}


/// The environment the emission threads through: the process-wide jump
/// label counter.
#[derive(Debug)]
pub struct Env {
    pub jump_counter: u64,
}

} // verus!
