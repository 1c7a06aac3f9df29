//! A simple command-line flag parser: a registry of named flags, each
//! bound to a typed slot, a token-list parser that fills the slots, and
//! usage-text formatting.  Every operation carries a contract that pins
//! its result down over a mathematical model of the registry.

use vstd::prelude::*;

pub mod num;
pub mod text;
pub mod var;

use crate::text::{alias_has, first_at};
use crate::var::{assign_spec, kind_tag, var_kind, var_val, Kind, Val, Var};

verus! {

/// One declared flag: its comma-separated alias list, its help text, and
/// the typed slot a match writes to.
pub struct Flag {
    pub name: String,
    pub help: String,
    pub var: Var,
}

/// A set of defined flags: a display name for usage text and the
/// declarations in insertion order, which is both match-priority order
/// and listing order.
pub struct FlagSet {
    pub name: String,
    pub set: Vec<Flag>,
}

/// The mathematical model of one flag: the views of its texts, its kind,
/// and the value its slot holds.
pub struct FlagModel {
    pub alias: Seq<char>,
    pub help: Seq<char>,
    pub kind: Kind,
    pub val: Val,
}

/// The model of a flag.
pub open spec fn flag_model(f: Flag) -> FlagModel {
    FlagModel { alias: f.name@, help: f.help@, kind: var_kind(f.var), val: var_val(f.var) }
}

/// The model of a whole declaration list.
pub open spec fn set_models(fs: Seq<Flag>) -> Seq<FlagModel> {
    fs.map_values(|f: Flag| flag_model(f))
}

/// How one run of the parser ends.
pub enum Outcome {
    /// Every token was consumed.
    Done,
    /// A token matched no declared alias.
    Unrecognized { token: Seq<char> },
    /// A non-boolean flag stood last, with no value token after it.
    Missing { alias: Seq<char> },
    /// A value token was rejected by the flag's slot.
    BadValue { alias: Seq<char>, detail: Seq<char> },
}

/// The first declaration (in insertion order) whose alias list contains
/// `token`, if any.
pub open spec fn find_match(ms: Seq<FlagModel>, token: Seq<char>) -> Option<int>
    decreases ms.len(),
{
    if ms.len() == 0 {
        None
    } else if alias_has(ms[0].alias, token) {
        Some(0int)
    } else {
        match find_match(ms.drop_first(), token) {
            Some(j) => Some(j + 1),
            None => None,
        }
    }
}

/// The model `ms` with flag `i` holding value `v`.
pub open spec fn with_val(ms: Seq<FlagModel>, i: int, v: Val) -> Seq<FlagModel> {
    ms.update(i, FlagModel { alias: ms[i].alias, help: ms[i].help, kind: ms[i].kind, val: v })
}

/// What parsing `args` over `ms` does: the declarations after the run,
/// and how it ended.  Tokens are consumed left to right; the first match
/// in insertion order wins; a boolean flag is set true by mere presence;
/// any other flag consumes the next token and assigns it; the first
/// failure stops the run, and flags already written keep their values.
pub open spec fn run_parse(ms: Seq<FlagModel>, args: Seq<Seq<char>>) -> (Seq<FlagModel>, Outcome)
    decreases args.len(),
{
    if args.len() == 0 {
        (ms, Outcome::Done)
    } else {
        match find_match(ms, args[0]) {
            None => (ms, Outcome::Unrecognized { token: args[0] }),
            Some(i) => {
                if ms[i].kind == Kind::Bool {
                    run_parse(with_val(ms, i, Val::B(true)), args.drop_first())
                } else if args.len() == 1 {
                    (ms, Outcome::Missing { alias: ms[i].alias })
                } else {
                    match assign_spec(ms[i].kind, args[1]) {
                        Ok(v) => run_parse(
                            with_val(ms, i, v),
                            args.subrange(2, args.len() as int),
                        ),
                        Err(m) => (ms, Outcome::BadValue { alias: ms[i].alias, detail: m }),
                    }
                }
            },
        }
    }
}

/// A matching flag below `i`-free prefix and a match at `i` pin
/// `find_match` down to `i`.
pub proof fn lemma_find_match_some(ms: Seq<FlagModel>, token: Seq<char>, i: int)
    requires
        0 <= i < ms.len(),
        alias_has(ms[i].alias, token),
        forall|j: int| 0 <= j < i ==> !alias_has(ms[j].alias, token),
    ensures
        find_match(ms, token) == Some(i),
    decreases ms.len(),
{
    if i > 0 {
        assert(ms.drop_first()[i - 1] == ms[i]);
        assert forall|j: int| 0 <= j < i - 1 implies !alias_has(
            ms.drop_first()[j].alias,
            token,
        ) by {
            assert(ms.drop_first()[j] == ms[j + 1]);
        }
        lemma_find_match_some(ms.drop_first(), token, i - 1);
    }
}

/// If no declaration's alias list contains `token`, there is no match.
pub proof fn lemma_find_match_none(ms: Seq<FlagModel>, token: Seq<char>)
    requires
        forall|j: int| 0 <= j < ms.len() ==> !alias_has(ms[j].alias, token),
    ensures
        find_match(ms, token) is None,
    decreases ms.len(),
{
    if ms.len() > 0 {
        assert forall|j: int| 0 <= j < ms.drop_first().len() implies !alias_has(
            ms.drop_first()[j].alias,
            token,
        ) by {
            assert(ms.drop_first()[j] == ms[j + 1]);
        }
        lemma_find_match_none(ms.drop_first(), token);
    }
}

/// A found match gives a well-formed index.
pub proof fn lemma_find_match_in_range(ms: Seq<FlagModel>, token: Seq<char>)
    ensures
        match find_match(ms, token) {
            Some(i) => 0 <= i < ms.len(),
            None => true,
        },
    decreases ms.len(),
{
    if ms.len() > 0 && !alias_has(ms[0].alias, token) {
        lemma_find_match_in_range(ms.drop_first(), token);
    }
}

/// Parsing never adds, removes or re-declares flags: every alias, help
/// text and kind stays exactly as declared; only slot values change.
pub proof fn lemma_parse_keeps_declarations(ms: Seq<FlagModel>, args: Seq<Seq<char>>)
    ensures
        run_parse(ms, args).0.len() == ms.len(),
        forall|i: int| 0 <= i < ms.len() ==> #[trigger] run_parse(ms, args).0[i].alias
            == ms[i].alias,
        forall|i: int| 0 <= i < ms.len() ==> #[trigger] run_parse(ms, args).0[i].help
            == ms[i].help,
        forall|i: int| 0 <= i < ms.len() ==> #[trigger] run_parse(ms, args).0[i].kind
            == ms[i].kind,
    decreases args.len(),
{
    if args.len() > 0 {
        lemma_find_match_in_range(ms, args[0]);
        match find_match(ms, args[0]) {
            None => {},
            Some(i) => {
                if ms[i].kind == Kind::Bool {
                    let wv = with_val(ms, i, Val::B(true));
                    let rest = args.drop_first();
                    lemma_parse_keeps_declarations(wv, rest);
                    assert forall|j: int| 0 <= j < ms.len() implies #[trigger] run_parse(
                        ms,
                        args,
                    ).0[j].alias == ms[j].alias && run_parse(ms, args).0[j].help == ms[j].help
                        && run_parse(ms, args).0[j].kind == ms[j].kind by {
                        assert(run_parse(wv, rest).0[j].alias == wv[j].alias);
                        assert(wv[j].alias == ms[j].alias && wv[j].help == ms[j].help && wv[j].kind
                            == ms[j].kind);
                    }
                } else if args.len() == 1 {
                } else {
                    match assign_spec(ms[i].kind, args[1]) {
                        Ok(v) => {
                            let wv = with_val(ms, i, v);
                            let rest = args.subrange(2, args.len() as int);
                            lemma_parse_keeps_declarations(wv, rest);
                            assert forall|j: int| 0 <= j < ms.len() implies #[trigger] run_parse(
                                ms,
                                args,
                            ).0[j].alias == ms[j].alias && run_parse(ms, args).0[j].help
                                == ms[j].help && run_parse(ms, args).0[j].kind == ms[j].kind by {
                                assert(run_parse(wv, rest).0[j].alias == wv[j].alias);
                                assert(wv[j].alias == ms[j].alias && wv[j].help == ms[j].help
                                    && wv[j].kind == ms[j].kind);
                            }
                        },
                        Err(_) => {},
                    }
                }
            },
        }
    }
}

/// A token that matches no declared alias fails the run at once and
/// leaves every flag exactly as it was.
pub proof fn lemma_unrecognized_leaves_unchanged(ms: Seq<FlagModel>, args: Seq<Seq<char>>)
    requires
        args.len() > 0,
        find_match(ms, args[0]) is None,
    ensures
        run_parse(ms, args) == (ms, Outcome::Unrecognized { token: args[0] }),
{
}

/// Presence alone sets a boolean flag: a single token selecting a
/// boolean flag sets exactly that slot true, consumes no further token,
/// and the run succeeds.
pub proof fn lemma_bool_presence(ms: Seq<FlagModel>, args: Seq<Seq<char>>, i: int)
    requires
        args.len() == 1,
        0 <= i < ms.len(),
        find_match(ms, args[0]) == Some(i),
        ms[i].kind == Kind::Bool,
    ensures
        run_parse(ms, args) == (with_val(ms, i, Val::B(true)), Outcome::Done),
{
    assert(args.drop_first().len() == 0);
    assert(run_parse(with_val(ms, i, Val::B(true)), args.drop_first()) == (
    with_val(ms, i, Val::B(true)),
    Outcome::Done,
    ));
}

/// A non-boolean flag standing last, with no value token after it, is a
/// missing-argument failure naming that flag's alias text.
pub proof fn lemma_missing_argument(ms: Seq<FlagModel>, args: Seq<Seq<char>>, i: int)
    requires
        args.len() == 1,
        0 <= i < ms.len(),
        find_match(ms, args[0]) == Some(i),
        ms[i].kind != Kind::Bool,
    ensures
        run_parse(ms, args) == (ms, Outcome::Missing { alias: ms[i].alias }),
{
}

/// The error a run of the parser reports to the caller.
#[derive(Debug, PartialEq)]
pub enum ParseError {
    /// A token matched no declared alias; it is carried verbatim.
    Unrecognized { token: String },
    /// A non-boolean flag stood last with no value; its alias text is carried.
    Missing { alias: String },
    /// A value token was rejected; the alias text and the slot's wording are carried.
    BadValue { alias: String, detail: String },
}

/// The conventional one-line wording of each error.
pub open spec fn error_text(e: ParseError) -> Seq<char> {
    match e {
        ParseError::Unrecognized { token } => "flag "@ + token@ + " provided but not defined"@,
        ParseError::Missing { alias } => "flag needs an argument: "@ + alias@,
        ParseError::BadValue { alias, detail } => "parse flag "@ + alias@ + " failed: "@ + detail@,
    }
}

/// Whether an error value reports the given outcome.
pub open spec fn error_fits(e: ParseError, o: Outcome) -> bool {
    match (e, o) {
        (ParseError::Unrecognized { token }, Outcome::Unrecognized { token: t }) => token@ == t,
        (ParseError::Missing { alias }, Outcome::Missing { alias: a }) => alias@ == a,
        (
            ParseError::BadValue { alias, detail },
            Outcome::BadValue { alias: a, detail: d },
        ) => alias@ == a && detail@ == d,
        _ => false,
    }
}

impl ParseError {
    /// The error as a single line of text.
    pub fn message(&self) -> (r: String)
        ensures
            r@ == error_text(*self),
    {
        match self {
            ParseError::Unrecognized { token } => {
                let mut m = String::from_str("flag ");
                m.append(token.as_str());
                m.append(" provided but not defined");
                m
            },
            ParseError::Missing { alias } => {
                let mut m = String::from_str("flag needs an argument: ");
                m.append(alias.as_str());
                m
            },
            ParseError::BadValue { alias, detail } => {
                let mut m = String::from_str("parse flag ");
                m.append(alias.as_str());
                m.append(" failed: ");
                m.append(detail.as_str());
                m
            },
        }
    }
}

/// The first declaration whose alias list contains `token`, by scanning
/// in insertion order.
fn find_flag(set: &Vec<Flag>, token: &str) -> (o: Option<usize>)
    ensures
        match o {
            Some(i) => i < set@.len() && find_match(set_models(set@), token@) == Some(i as int),
            None => find_match(set_models(set@), token@) is None,
        },
{
    let n = set.len();
    let mut i: usize = 0;
    while i < n
        invariant
            i <= n,
            n == set@.len(),
            forall|j: int| 0 <= j < i ==> !alias_has(#[trigger] set_models(set@)[j].alias, token@),
        decreases n - i,
    {
        let hit = crate::text::alias_matches(set[i].name.as_str(), token);
        proof {
            assert(set_models(set@)[i as int].alias == set@[i as int].name@);
        }
        if hit {
            proof {
                lemma_find_match_some(set_models(set@), token@, i as int);
            }
            return Some(i);
        }
        i += 1;
    }
    proof {
        lemma_find_match_none(set_models(set@), token@);
    }
    None
}

impl FlagSet {
    /// An empty set of flags; `name` appears verbatim in usage output.
    pub fn new(name: &str) -> (s: Self)
        ensures
            s.name@ == name@,
            s.set@.len() == 0,
    {
        Self { name: name.to_owned(), set: Vec::new() }
    }

    /// Append a flag: an alias list, the slot it writes, and its help
    /// text.  Returns the set itself so declarations chain.
    pub fn add(self, name: &str, var: Var, help: &str) -> (s: Self)
        ensures
            s.name@ == self.name@,
            s.set@.len() == self.set@.len() + 1,
            forall|i: int| 0 <= i < self.set@.len() ==> s.set@[i] == self.set@[i],
            s.set@[self.set@.len() as int].name@ == name@,
            s.set@[self.set@.len() as int].help@ == help@,
            s.set@[self.set@.len() as int].var == var,
            set_models(s.set@) == set_models(self.set@).push(
                FlagModel { alias: name@, help: help@, kind: var_kind(var), val: var_val(var) },
            ),
    {
        let mut s = self;
        s.set.push(Flag { name: name.to_owned(), help: help.to_owned(), var });
        proof {
            assert(set_models(s.set@) =~= set_models(self.set@).push(
                FlagModel { alias: name@, help: help@, kind: var_kind(var), val: var_val(var) },
            ));
        }
        s
    }

    /// The display name the set was created with.
    pub fn name(&self) -> (r: &str)
        ensures
            r@ == self.name@,
    {
        self.name.as_str()
    }

    /// Consume `args` left to right, writing matched flags' slots, and
    /// report the first failure.  `run_parse` on the model of the set
    /// says exactly which slots are written and which error comes back;
    /// flags written before a failing token keep their new values.
    pub fn parse(&mut self, args: &[String]) -> (r: Result<(), ParseError>)
        ensures
            final(self).name@ == old(self).name@,
            set_models(final(self).set@) == run_parse(
                set_models(old(self).set@),
                args.deep_view(),
            ).0,
            match r {
                Ok(()) => run_parse(set_models(old(self).set@), args.deep_view()).1
                    == Outcome::Done,
                Err(e) => error_fits(e, run_parse(set_models(old(self).set@), args.deep_view()).1)
                    && !(run_parse(set_models(old(self).set@), args.deep_view()).1 is Done),
            },
    {
        let ghost models0 = set_models(self.set@);
        let ghost adv = args.deep_view();
        let n_args = args.len();
        proof {
            assert(adv.subrange(0, n_args as int) =~= adv);
        }
        let mut k: usize = 0;
        while k < n_args
            invariant
                k <= n_args,
                n_args == args@.len(),
                adv == args.deep_view(),
                self.name@ == old(self).name@,
                models0 == set_models(old(self).set@),
                run_parse(models0, adv) == run_parse(
                    set_models(self.set@),
                    adv.subrange(k as int, n_args as int),
                ),
            decreases n_args - k,
        {
            let ghost cur = set_models(self.set@);
            let ghost rem = adv.subrange(k as int, n_args as int);
            let token: &str = args[k].as_str();
            proof {
                assert(rem[0] == adv[k as int]);
                assert(adv[k as int] == args@[k as int]@);
            }
            match find_flag(&self.set, token) {
                None => {
                    return Err(ParseError::Unrecognized { token: token.to_owned() });
                },
                Some(i) => {
                    let is_bool = match &self.set[i].var {
                        Var::Bool(_) => true,
                        _ => false,
                    };
                    proof {
                        assert(cur[i as int].kind == var_kind(self.set@[i as int].var));
                    }
                    if is_bool {
                        let f = &mut self.set[i];
                        f.var = Var::Bool(true);
                        proof {
                            assert(set_models(self.set@) =~= with_val(cur, i as int, Val::B(true)));
                            assert(rem.drop_first() =~= adv.subrange(k + 1, n_args as int));
                        }
                        k += 1;
                    } else {
                        if k + 1 >= n_args {
                            return Err(ParseError::Missing { alias: self.set[i].name.clone() });
                        }
                        let value: &str = args[k + 1].as_str();
                        proof {
                            assert(rem[1] == adv[k + 1]);
                            assert(adv[k + 1] == args@[k + 1]@);
                        }
                        let alias_held = self.set[i].name.clone();
                        let f = &mut self.set[i];
                        let res = f.var.parse(value);
                        match res {
                            Ok(()) => {
                                proof {
                                    let v = assign_spec(cur[i as int].kind, value@)->Ok_0;
                                    assert(set_models(self.set@) =~= with_val(cur, i as int, v));
                                    assert(rem.subrange(2, rem.len() as int) =~= adv.subrange(
                                        k + 2,
                                        n_args as int,
                                    ));
                                }
                                k += 2;
                            },
                            Err(detail) => {
                                return Err(
                                    ParseError::BadValue { alias: alias_held, detail },
                                );
                            },
                        }
                    }
                },
            }
        }
        proof {
            assert(adv.subrange(n_args as int, n_args as int) =~= Seq::<Seq<char>>::empty());
        }
        Ok(())
    }
}

/// Index of the first backtick of `h`, or its length.
pub open spec fn tick1(h: Seq<char>) -> int {
    first_at(h, '`') as int
}

/// Index of the second backtick of `h`, or its length.
pub open spec fn tick2(h: Seq<char>) -> int {
    tick1(h) + 1 + first_at(h.subrange(tick1(h) + 1, h.len() as int), '`') as int
}

/// Whether `h` carries a backtick-quoted placeholder: two backticks with
/// something after the second.
pub open spec fn has_quoted(h: Seq<char>) -> bool {
    tick1(h) < h.len() && tick2(h) + 1 < h.len()
}

/// The quoted placeholder: the text between the first two backticks.
pub open spec fn quoted_name(h: Seq<char>) -> Seq<char> {
    h.subrange(tick1(h) + 1, tick2(h))
}

/// `h` with its first two backticks removed.
pub open spec fn stripped_help(h: Seq<char>) -> Seq<char> {
    h.subrange(0, tick1(h)) + h.subrange(tick1(h) + 1, tick2(h)) + h.subrange(
        tick2(h) + 1,
        h.len() as int,
    )
}

/// The value placeholder shown for a flag: never for a boolean, else the
/// quoted name if the help text carries one, else the kind tag.
pub open spec fn placeholder(m: FlagModel) -> Seq<char> {
    if m.kind == Kind::Bool {
        Seq::empty()
    } else if has_quoted(m.help) {
        quoted_name(m.help)
    } else {
        kind_tag(m.kind)
    }
}

/// The help text as shown: backticks stripped when a placeholder was
/// quoted in it.
pub open spec fn shown_help(m: FlagModel) -> Seq<char> {
    if has_quoted(m.help) {
        stripped_help(m.help)
    } else {
        m.help
    }
}

/// The indent that continues help text under its flag.
pub open spec fn cont_indent() -> Seq<char> {
    "\n    \t"@
}

/// Help text with every embedded newline followed by the continuation
/// indent.
pub open spec fn indent_help(s: Seq<char>) -> Seq<char>
    decreases s.len(),
{
    if s.len() == 0 {
        Seq::empty()
    } else if s[0] == '\n' {
        cont_indent() + indent_help(s.drop_first())
    } else {
        seq![s[0]] + indent_help(s.drop_first())
    }
}

/// The alias-and-placeholder column of a flag's block.
pub open spec fn head_text(m: FlagModel) -> Seq<char> {
    if placeholder(m).len() > 0 {
        m.alias + " "@ + placeholder(m)
    } else {
        m.alias
    }
}

/// One flag's block in the listing: two-space indent, the alias and
/// placeholder, a tab (or a break and the continuation indent when the
/// column is longer than four characters), the indented help, a newline.
pub open spec fn flag_block(m: FlagModel) -> Seq<char> {
    "  "@ + head_text(m) + (if head_text(m).len() <= 4 {
        "\t"@
    } else {
        cont_indent()
    }) + indent_help(shown_help(m)) + "\n"@
}

/// The listing: every flag's block, in insertion order.
pub open spec fn blocks(ms: Seq<FlagModel>) -> Seq<char>
    decreases ms.len(),
{
    if ms.len() == 0 {
        Seq::empty()
    } else {
        flag_block(ms[0]) + blocks(ms.drop_first())
    }
}

/// Indenting distributes over concatenation.
pub proof fn lemma_indent_concat(a: Seq<char>, b: Seq<char>)
    ensures
        indent_help(a + b) == indent_help(a) + indent_help(b),
    decreases a.len(),
{
    if a.len() == 0 {
        assert(a + b =~= b);
        assert(indent_help(a) + indent_help(b) =~= indent_help(b));
    } else {
        assert((a + b).drop_first() =~= a.drop_first() + b);
        assert((a + b)[0] == a[0]);
        lemma_indent_concat(a.drop_first(), b);
        if a[0] == '\n' {
            assert(cont_indent() + (indent_help(a.drop_first()) + indent_help(b)) =~= (cont_indent()
                + indent_help(a.drop_first())) + indent_help(b));
        } else {
            assert(seq![a[0]] + (indent_help(a.drop_first()) + indent_help(b)) =~= (seq![a[0]]
                + indent_help(a.drop_first())) + indent_help(b));
        }
    }
}

/// Text without a newline is left untouched by indenting.
pub proof fn lemma_indent_plain(a: Seq<char>)
    requires
        forall|i: int| 0 <= i < a.len() ==> a[i] != '\n',
    ensures
        indent_help(a) == a,
    decreases a.len(),
{
    if a.len() > 0 {
        assert forall|i: int| 0 <= i < a.drop_first().len() implies a.drop_first()[i] != '\n' by {
            assert(a.drop_first()[i] == a[i + 1]);
        }
        lemma_indent_plain(a.drop_first());
        assert(seq![a[0]] + a.drop_first() =~= a);
    }
}

/// Appending one flag appends its block.
pub proof fn lemma_blocks_push(ms: Seq<FlagModel>, f: FlagModel)
    ensures
        blocks(ms.push(f)) == blocks(ms) + flag_block(f),
    decreases ms.len(),
{
    if ms.len() == 0 {
        assert(ms.push(f)[0] == f);
        assert(ms.push(f).drop_first() =~= Seq::<FlagModel>::empty());
        assert(blocks(ms.push(f)) == flag_block(f) + blocks(ms.push(f).drop_first()));
        assert(flag_block(f) + Seq::<char>::empty() =~= flag_block(f));
        assert(Seq::<char>::empty() + flag_block(f) =~= flag_block(f));
    } else {
        lemma_blocks_push(ms.drop_first(), f);
        assert(ms.push(f).drop_first() =~= ms.drop_first().push(f));
        assert(ms.push(f)[0] == ms[0]);
        assert(blocks(ms.push(f)) == flag_block(ms[0]) + blocks(ms.drop_first().push(f)));
        assert(flag_block(ms[0]) + (blocks(ms.drop_first()) + flag_block(f)) =~= (flag_block(ms[0])
            + blocks(ms.drop_first())) + flag_block(f));
    }
}

/// The listing grows block by block.
pub proof fn lemma_blocks_snoc(ms: Seq<FlagModel>, i: int)
    requires
        0 <= i < ms.len(),
    ensures
        blocks(ms.take(i + 1)) == blocks(ms.take(i)) + flag_block(ms[i]),
{
    assert(ms.take(i + 1) =~= ms.take(i).push(ms[i]));
    lemma_blocks_push(ms.take(i), ms[i]);
}

/// Number of occurrences of `c` in `s`.
pub open spec fn count_char(s: Seq<char>, c: char) -> int
    decreases s.len(),
{
    if s.len() == 0 {
        0
    } else {
        (if s[0] == c {
            1int
        } else {
            0int
        }) + count_char(s.drop_first(), c)
    }
}

/// An occurrence contributes to the count.
pub proof fn lemma_count_pos(s: Seq<char>, c: char, p: int)
    requires
        0 <= p < s.len(),
        s[p] == c,
    ensures
        count_char(s, c) >= 1,
    decreases s.len(),
{
    if p > 0 {
        assert(s.drop_first()[p - 1] == s[p]);
        lemma_count_pos(s.drop_first(), c, p - 1);
    }
    assert(count_char(s.drop_first(), c) >= 0) by {
        lemma_count_nonneg(s.drop_first(), c);
    }
}

/// The count is never negative.
pub proof fn lemma_count_nonneg(s: Seq<char>, c: char)
    ensures
        count_char(s, c) >= 0,
    decreases s.len(),
{
    if s.len() > 0 {
        lemma_count_nonneg(s.drop_first(), c);
    }
}

/// Two distinct occurrences make the count at least two.
pub proof fn lemma_count_two(s: Seq<char>, c: char, p: int, q: int)
    requires
        0 <= p < q < s.len(),
        s[p] == c,
        s[q] == c,
    ensures
        count_char(s, c) >= 2,
    decreases s.len(),
{
    if p == 0 {
        assert(s.drop_first()[q - 1] == s[q]);
        lemma_count_pos(s.drop_first(), c, q - 1);
    } else {
        assert(s.drop_first()[p - 1] == s[p]);
        assert(s.drop_first()[q - 1] == s[q]);
        lemma_count_two(s.drop_first(), c, p - 1, q - 1);
    }
}

/// With fewer than two backticks in the help text, the kind tag stands
/// as the placeholder and the help is shown unchanged.
pub proof fn lemma_unquoted_help(m: FlagModel)
    requires
        count_char(m.help, '`') <= 1,
    ensures
        placeholder(m) == (if m.kind == Kind::Bool {
            Seq::<char>::empty()
        } else {
            kind_tag(m.kind)
        }),
        shown_help(m) == m.help,
{
    if has_quoted(m.help) {
        let h = m.help;
        crate::text::lemma_first_at(h, '`');
        crate::text::lemma_first_at(h.subrange(tick1(h) + 1, h.len() as int), '`');
        assert(h[tick1(h)] == '`');
        assert(h[tick2(h)] == h.subrange(tick1(h) + 1, h.len() as int)[tick2(h) - tick1(h) - 1]);
        lemma_count_two(h, '`', tick1(h), tick2(h));
        assert(false);
    }
}

/// A short alias-and-placeholder column (at most four characters) is
/// followed by a single tab; a longer one by a line break and the
/// continuation indent.
pub proof fn lemma_block_separator(m: FlagModel)
    ensures
        head_text(m).len() <= 4 ==> flag_block(m) == "  "@ + head_text(m) + "\t"@ + indent_help(
            shown_help(m),
        ) + "\n"@,
        head_text(m).len() > 4 ==> flag_block(m) == "  "@ + head_text(m) + cont_indent()
            + indent_help(shown_help(m)) + "\n"@,
{
}

impl Flag {
    /// The placeholder name and display help of this flag: the first
    /// backtick-quoted segment of the help overrides the kind tag, and
    /// the two backticks are stripped from the help.
    pub fn unquote_usage(&self) -> (r: (String, String))
        ensures
            r.0@ == (if has_quoted(self.help@) {
                quoted_name(self.help@)
            } else {
                kind_tag(var_kind(self.var))
            }),
            r.1@ == (if has_quoted(self.help@) {
                stripped_help(self.help@)
            } else {
                self.help@
            }),
    {
        let h = self.help.as_str();
        let n = h.unicode_len();
        let t1 = crate::text::find_char(h, 0, n, '`');
        proof {
            crate::text::lemma_first_at_is(h@, '`', t1 as int);
        }
        if t1 == n {
            return (String::from_str(self.var.unquotename()), self.help.clone());
        }
        let t2 = crate::text::find_char(h, t1 + 1, n, '`');
        let ghost suffix = h@.subrange(t1 + 1, n as int);
        proof {
            assert forall|j: int| 0 <= j < t2 - (t1 + 1) implies suffix[j] != '`' by {
                assert(suffix[j] == h@[t1 + 1 + j]);
            }
            if t2 < n {
                assert(suffix[t2 - (t1 + 1)] == h@[t2 as int]);
            }
            crate::text::lemma_first_at_is(suffix, '`', t2 - (t1 + 1));
            assert(tick2(h@) == t2);
        }
        if t2 == n {
            return (String::from_str(self.var.unquotename()), self.help.clone());
        }
        if t2 + 1 == n {
            return (String::from_str(self.var.unquotename()), self.help.clone());
        }
        let name = h.substring_char(t1 + 1, t2).to_owned();
        let mut help2 = h.substring_char(0, t1).to_owned();
        help2.append(h.substring_char(t1 + 1, t2));
        help2.append(h.substring_char(t2 + 1, n));
        (name, help2)
    }
}

/// Append `h`, with every newline followed by the continuation indent,
/// to `out`.
fn append_indented(out: &mut String, h: &str)
    ensures
        final(out)@ == old(out)@ + indent_help(h@),
{
    let n = h.unicode_len();
    let mut st: usize = 0;
    proof {
        assert(h@.subrange(0, 0) =~= Seq::<char>::empty());
        assert(old(out)@ + indent_help(h@.subrange(0, 0)) =~= old(out)@);
    }
    loop
        invariant
            st <= n,
            n == h@.len(),
            out@ == old(out)@ + indent_help(h@.subrange(0, st as int)),
        decreases n - st,
    {
        let k = crate::text::find_char(h, st, n, '\n');
        let chunk = h.substring_char(st, k);
        out.append(chunk);
        proof {
            let pre = h@.subrange(0, st as int);
            let mid = h@.subrange(st as int, k as int);
            assert forall|i: int| 0 <= i < mid.len() implies mid[i] != '\n' by {
                assert(mid[i] == h@[st + i]);
            }
            lemma_indent_plain(mid);
            lemma_indent_concat(pre, mid);
            assert(pre + mid =~= h@.subrange(0, k as int));
            assert((old(out)@ + indent_help(pre)) + mid =~= old(out)@ + (indent_help(pre) + mid));
        }
        if k == n {
            proof {
                assert(h@.subrange(0, n as int) =~= h@);
            }
            return ;
        }
        out.append("\n    \t");
        proof {
            let pre = h@.subrange(0, k as int);
            let nl = h@.subrange(k as int, k + 1);
            assert(nl[0] == h@[k as int]);
            assert(indent_help(nl.drop_first()) =~= Seq::<char>::empty());
            assert(cont_indent() + Seq::<char>::empty() =~= cont_indent());
            assert(indent_help(nl) == cont_indent());
            lemma_indent_concat(pre, nl);
            assert(pre + nl =~= h@.subrange(0, k + 1));
            assert((old(out)@ + indent_help(pre)) + cont_indent() =~= old(out)@ + (indent_help(pre)
                + cont_indent()));
        }
        st = k + 1;
    }
}

impl FlagSet {
    /// The flag listing: one block per declaration, in insertion order.
    pub fn defaults(&self) -> (r: String)
        ensures
            r@ == blocks(set_models(self.set@)),
    {
        let ghost ms = set_models(self.set@);
        let mut out = String::new();
        let n = self.set.len();
        let mut idx: usize = 0;
        proof {
            assert(blocks(ms.take(0)) =~= Seq::<char>::empty());
        }
        while idx < n
            invariant
                idx <= n,
                n == self.set@.len(),
                ms == set_models(self.set@),
                out@ == blocks(ms.take(idx as int)),
            decreases n - idx,
        {
            let ghost m = ms[idx as int];
            let (ph, h2) = self.set[idx].unquote_usage();
            let is_bool = match &self.set[idx].var {
                Var::Bool(_) => true,
                _ => false,
            };
            proof {
                assert(m == flag_model(self.set@[idx as int]));
            }
            let mut head = self.set[idx].name.clone();
            if !is_bool && ph.as_str().unicode_len() > 0 {
                head.append(" ");
                head.append(ph.as_str());
            }
            proof {
                assert(head@ == head_text(m));
            }
            out.append("  ");
            out.append(head.as_str());
            if head.as_str().unicode_len() <= 4 {
                out.append("\t");
            } else {
                out.append("\n    \t");
            }
            append_indented(&mut out, h2.as_str());
            out.append("\n");
            proof {
                lemma_blocks_snoc(ms, idx as int);
                assert(out@ =~= blocks(ms.take(idx as int)) + flag_block(m));
            }
            idx += 1;
        }
        proof {
            assert(ms.take(n as int) =~= ms);
        }
        out
    }

    /// The usage banner followed by the flag listing.
    pub fn usage(&self) -> (r: String)
        ensures
            r@ == "Usage of "@ + self.name@ + ":\n"@ + blocks(set_models(self.set@)),
    {
        let mut r = String::from_str("Usage of ");
        r.append(self.name.as_str());
        r.append(":\n");
        let d = self.defaults();
        r.append(d.as_str());
        r
    }
}

} // verus!
