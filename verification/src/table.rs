//! The SLR parsing table: states mapped to shift/reduce/accept actions and
//! goto targets.
//!
//! The table is an external resource, produced by a grammar tool and loaded,
//! never computed, here. Rows are kept as association lists looked up by a
//! two-step scheme used uniformly for actions and gotos: the exact terminal
//! key first, then the wildcard key `"ANY"`, which marks entries that do not
//! depend on the lookahead.

use vstd::prelude::*;

use crate::lexer::is_digit;
use crate::strutil::{chars_to_string, str_to_chars, subvec_chars};

verus! {

/// One parser action, already parsed from its textual form.
#[derive(Debug, PartialEq, Eq)]
pub enum Action {
    /// Push the lookahead as a leaf, push this state, advance.
    Shift(usize),
    /// Pop this many entries, attach them to a node named by the
    /// nonterminal, and take a goto transition. The lookahead stays.
    Reduce(usize, String),
    /// The input is accepted.
    Accept,
}

/// The mathematical content of an [`Action`].
pub ghost enum ActionV {
    Shift(int),
    Reduce(int, Seq<char>),
    Accept,
}

impl View for Action {
    type V = ActionV;

    open spec fn view(&self) -> ActionV {
        match self {
            Action::Shift(s) => ActionV::Shift(*s as int),
            Action::Reduce(c, nt) => ActionV::Reduce(*c as int, nt@),
            Action::Accept => ActionV::Accept,
        }
    }
}

/// One state's row: its action entries keyed by terminal name (or `"ANY"`),
/// and its goto entries keyed by nonterminal name, each mapping a terminal
/// name (or `"ANY"`) to the target state.
#[derive(Debug, PartialEq, Eq)]
pub struct TableState {
    pub actions: Vec<(String, Action)>,
    pub gotos: Vec<(String, Vec<(String, usize)>)>,
}

/// The mathematical content of a [`TableState`].
pub ghost struct StateView {
    pub actions: Seq<(Seq<char>, ActionV)>,
    pub gotos: Seq<(Seq<char>, Seq<(Seq<char>, int)>)>,
}

/// The view of one goto row's target list.
pub open spec fn goto_inner_view(s: Seq<(String, usize)>) -> Seq<(Seq<char>, int)> {
    Seq::new(s.len(), |i: int| (s[i].0@, s[i].1 as int))
}

/// The view of a state's goto entries.
pub open spec fn goto_outer_view(s: Seq<(String, Vec<(String, usize)>)>) -> Seq<
    (Seq<char>, Seq<(Seq<char>, int)>),
> {
    Seq::new(s.len(), |i: int| (s[i].0@, goto_inner_view(s[i].1@)))
}

/// The view of a state's action entries.
pub open spec fn actions_view(s: Seq<(String, Action)>) -> Seq<(Seq<char>, ActionV)> {
    Seq::new(s.len(), |i: int| (s[i].0@, s[i].1@))
}

impl View for TableState {
    type V = StateView;

    open spec fn view(&self) -> StateView {
        StateView { actions: actions_view(self.actions@), gotos: goto_outer_view(self.gotos@) }
    }
}

/// The whole table: state rows keyed by state number. The start state is 0.
#[derive(Debug, PartialEq, Eq)]
pub struct ParsingTable {
    pub rows: Vec<(usize, TableState)>,
}

/// The mathematical content of a [`ParsingTable`].
pub ghost struct TableView {
    pub rows: Seq<(int, StateView)>,
}

impl View for ParsingTable {
    type V = TableView;

    open spec fn view(&self) -> TableView {
        TableView { rows: Seq::new(self.rows@.len(), |i: int| (self.rows@[i].0 as int, self.rows@[i].1@)) }
    }
}

/// First match in an association list with string keys.
pub open spec fn find_assoc<V>(s: Seq<(Seq<char>, V)>, key: Seq<char>) -> Option<V>
    decreases s.len(),
{
    if s.len() == 0 {
        None
    } else if s[0].0 == key {
        Some(s[0].1)
    } else {
        find_assoc(s.drop_first(), key)
    }
}

/// Two-step lookup: the exact key first, else the wildcard key `"ANY"`.
pub open spec fn find_with_wildcard<V>(s: Seq<(Seq<char>, V)>, key: Seq<char>) -> Option<V> {
    match find_assoc(s, key) {
        Some(v) => Some(v),
        None => find_assoc(s, "ANY"@),
    }
}

/// The row of a state number, if the table has one.
pub open spec fn find_row(t: TableView, id: int) -> Option<StateView>
    decreases t.rows.len(),
{
    if t.rows.len() == 0 {
        None
    } else if t.rows[0].0 == id {
        Some(t.rows[0].1)
    } else {
        find_row(TableView { rows: t.rows.drop_first() }, id)
    }
}

impl ParsingTable {
    /// Looks up the row of a state number by scanning the rows in order.
    pub fn state_row(&self, id: usize) -> (r: Option<&TableState>)
        ensures
            match r {
                Some(row) => find_row(self@, id as int) == Some(row@),
                None => find_row(self@, id as int) is None,
            },
    {
        let mut i: usize = 0;
        assert(self@.rows.skip(0) =~= self@.rows);
        while i < self.rows.len()
            invariant
                i <= self.rows@.len(),
                find_row(self@, id as int) == find_row(
                    TableView { rows: self@.rows.skip(i as int) },
                    id as int,
                ),
            decreases self.rows@.len() - i,
        {
            let p = &self.rows[i];
            assert(self@.rows.skip(i as int)[0] == (p.0 as int, p.1@));
            if p.0 == id {
                return Some(&p.1);
            }
            assert(self@.rows.skip(i as int).drop_first() =~= self@.rows.skip(i + 1));
            i = i + 1;
        }
        assert(self@.rows.skip(i as int) =~= Seq::<(int, StateView)>::empty());
        None
    }
}

impl TableState {
    /// The action this row gives for a lookahead terminal: the exact entry
    /// if present, else the `"ANY"` entry.
    pub fn action_for(&self, key: &String) -> (r: Option<&Action>)
        ensures
            match r {
                Some(a) => find_with_wildcard(self@.actions, key@) == Some(a@),
                None => find_with_wildcard(self@.actions, key@) is None,
            },
    {
        match assoc_action(&self.actions, key) {
            Some(a) => Some(a),
            None => {
                let wild = "ANY".to_owned();
                assoc_action(&self.actions, &wild)
            },
        }
    }

    /// The goto row of a nonterminal, looked up by its exact name.
    pub fn goto_row(&self, nt: &String) -> (r: Option<&Vec<(String, usize)>>)
        ensures
            match r {
                Some(inner) => find_assoc(self@.gotos, nt@) == Some(goto_inner_view(inner@)),
                None => find_assoc(self@.gotos, nt@) is None,
            },
    {
        let mut i: usize = 0;
        assert(self@.gotos.skip(0) =~= self@.gotos);
        while i < self.gotos.len()
            invariant
                i <= self.gotos@.len(),
                find_assoc(self@.gotos, nt@) == find_assoc(self@.gotos.skip(i as int), nt@),
            decreases self.gotos@.len() - i,
        {
            let p = &self.gotos[i];
            assert(self@.gotos.skip(i as int)[0] == (p.0@, goto_inner_view(p.1@)));
            if p.0 == *nt {
                return Some(&p.1);
            }
            assert(self@.gotos.skip(i as int).drop_first() =~= self@.gotos.skip(i + 1));
            i = i + 1;
        }
        assert(self@.gotos.skip(i as int) =~= Seq::<(Seq<char>, Seq<(Seq<char>, int)>)>::empty());
        None
    }
}

/// First exact match among a row's action entries.
fn assoc_action<'a>(entries: &'a Vec<(String, Action)>, key: &String) -> (r: Option<&'a Action>)
    ensures
        match r {
            Some(a) => find_assoc(actions_view(entries@), key@) == Some(a@),
            None => find_assoc(actions_view(entries@), key@) is None,
        },
{
    let mut i: usize = 0;
    assert(actions_view(entries@).skip(0) =~= actions_view(entries@));
    while i < entries.len()
        invariant
            i <= entries@.len(),
            find_assoc(actions_view(entries@), key@) == find_assoc(
                actions_view(entries@).skip(i as int),
                key@,
            ),
        decreases entries@.len() - i,
    {
        let p = &entries[i];
        assert(actions_view(entries@).skip(i as int)[0] == (p.0@, p.1@));
        if p.0 == *key {
            return Some(&p.1);
        }
        assert(actions_view(entries@).skip(i as int).drop_first() =~= actions_view(entries@).skip(
            i + 1,
        ));
        i = i + 1;
    }
    assert(actions_view(entries@).skip(i as int) =~= Seq::<(Seq<char>, ActionV)>::empty());
    None
}

/// The target state a goto row gives for a lookahead terminal: the exact
/// entry if present, else the `"ANY"` entry.
pub fn goto_target(inner: &Vec<(String, usize)>, key: &String) -> (r: Option<usize>)
    ensures
        match r {
            Some(g) => find_with_wildcard(goto_inner_view(inner@), key@) == Some(g as int),
            None => find_with_wildcard(goto_inner_view(inner@), key@) is None,
        },
{
    match assoc_goto(inner, key) {
        Some(g) => Some(g),
        None => {
            let wild = "ANY".to_owned();
            assoc_goto(inner, &wild)
        },
    }
}

/// Whether every character of the sequence is a decimal digit.
pub open spec fn all_digits(s: Seq<char>) -> bool {
    forall|i: int| 0 <= i < s.len() ==> is_digit(#[trigger] s[i])
}

/// The number the digit sequence denotes, most significant digit first.
pub open spec fn digits_val(s: Seq<char>) -> int
    decreases s.len(),
{
    if s.len() == 0 {
        0
    } else {
        digits_val(s.drop_last()) * 10 + (s.last() as u32 - '0' as u32)
    }
}

/// Whether the sequence is a nonempty digit string whose value fits the
/// machine.
pub open spec fn valid_nat_str(s: Seq<char>) -> bool {
    s.len() >= 1 && all_digits(s) && digits_val(s) <= usize::MAX
}

/// The index of the first occurrence of `c`, if any.
pub open spec fn find_char(s: Seq<char>, c: char) -> Option<int>
    decreases s.len(),
{
    if s.len() == 0 {
        None
    } else if s[0] == c {
        Some(0)
    } else {
        match find_char(s.drop_first(), c) {
            Some(k) => Some(k + 1),
            None => None,
        }
    }
}

proof fn lemma_digits_val_nonneg(s: Seq<char>)
    requires
        all_digits(s),
    ensures
        digits_val(s) >= 0,
    decreases s.len(),
{
    if s.len() > 0 {
        assert(all_digits(s.drop_last()));
        lemma_digits_val_nonneg(s.drop_last());
    }
}

proof fn lemma_digits_val_prefix(s: Seq<char>, j: int)
    requires
        all_digits(s),
        0 <= j <= s.len(),
    ensures
        digits_val(s.take(j)) <= digits_val(s),
    decreases s.len(),
{
    if j == s.len() {
        assert(s.take(j) =~= s);
    } else {
        assert(all_digits(s.drop_last()));
        assert(s.take(j) =~= s.drop_last().take(j));
        lemma_digits_val_prefix(s.drop_last(), j);
        lemma_digits_val_nonneg(s.drop_last());
    }
}

proof fn lemma_find_char_at(s: Seq<char>, c: char, j: int)
    requires
        0 <= j < s.len(),
        s[j] == c,
        forall|k: int| 0 <= k < j ==> s[k] != c,
    ensures
        find_char(s, c) == Some(j),
    decreases j,
{
    if j > 0 {
        lemma_find_char_at(s.drop_first(), c, j - 1);
    }
}

proof fn lemma_find_char_some(s: Seq<char>, c: char, j: int)
    requires
        0 <= j < s.len(),
        s[j] == c,
    ensures
        find_char(s, c) is Some,
    decreases j,
{
    if s[0] != c {
        lemma_find_char_some(s.drop_first(), c, j - 1);
    }
}

proof fn lemma_find_char_none(s: Seq<char>, c: char)
    requires
        forall|k: int| 0 <= k < s.len() ==> s[k] != c,
    ensures
        find_char(s, c) is None,
    decreases s.len(),
{
    if s.len() > 0 {
        lemma_find_char_none(s.drop_first(), c);
    }
}

/// Parses the digits of `cs` between `from` and `to` as a number.
#[verifier::loop_isolation(false)]
fn parse_digits(cs: &Vec<char>, from: usize, to: usize) -> (r: Option<usize>)
    requires
        from <= to,
        to <= cs@.len(),
    ensures
        (match r {
            Some(v) => valid_nat_str(cs@.subrange(from as int, to as int)) && v as int
                == digits_val(cs@.subrange(from as int, to as int)),
            None => !valid_nat_str(cs@.subrange(from as int, to as int)),
        }),
{
    let ghost s = cs@.subrange(from as int, to as int);
    if from == to {
        return None;
    }
    let mut v: usize = 0;
    let mut i: usize = from;
    proof {
        assert(s.take(0) =~= Seq::<char>::empty());
    }
    while i < to
        invariant
            from <= i,
            i <= to,
            all_digits(s.take(i - from)),
            v as int == digits_val(s.take(i - from)),
        decreases to - i,
    {
        let c = cs[i];
        assert(s[i - from] == c);
        let u = c as u32;
        if !('0' as u32 <= u && u <= '9' as u32) {
            assert(!all_digits(s));
            return None;
        }
        let d: usize = (u - '0' as u32) as usize;
        if v > (usize::MAX - d) / 10 {
            proof {
                assert(s.take(i - from + 1).drop_last() =~= s.take(i - from));
                assert(digits_val(s.take(i - from + 1)) == v * 10 + d);
                assert(v * 10 + d > usize::MAX) by (nonlinear_arith)
                    requires
                        v > (usize::MAX - d) / 10,
                        d <= 9,
                ;
                if all_digits(s) {
                    lemma_digits_val_prefix(s, i - from + 1);
                }
            }
            return None;
        }
        assert(v * 10 + d <= usize::MAX) by (nonlinear_arith)
            requires
                v <= (usize::MAX - d) / 10,
                d <= 9,
        ;
        proof {
            assert(s.take(i - from + 1).drop_last() =~= s.take(i - from));
        }
        v = v * 10 + d;
        i = i + 1;
    }
    proof {
        assert(s.take(to - from) =~= s);
    }
    Some(v)
}

/// The action a table cell's text denotes: `"ACC"`, `"S <state>"`, or
/// `"R <count> <nonterminal>"`; anything else is malformed.
pub open spec fn parse_action_spec(s: Seq<char>) -> Option<ActionV> {
    if s == "ACC"@ {
        Some(ActionV::Accept)
    } else if s.len() >= 2 && s[0] == 'S' && s[1] == ' ' && valid_nat_str(s.skip(2)) {
        Some(ActionV::Shift(digits_val(s.skip(2))))
    } else if s.len() >= 2 && s[0] == 'R' && s[1] == ' ' {
        match find_char(s.skip(2), ' ') {
            None => None,
            Some(j) => {
                let ds = s.skip(2).take(j);
                let name = s.skip(2).skip(j + 1);
                if valid_nat_str(ds) && name.len() >= 1 && find_char(name, ' ') is None {
                    Some(ActionV::Reduce(digits_val(ds), name))
                } else {
                    None
                }
            },
        }
    } else {
        None
    }
}

/// Parses one textual action cell into a typed [`Action`].
#[verifier::loop_isolation(false)]
pub fn parse_action_string(s: &str) -> (r: Option<Action>)
    ensures
        (match r {
            Some(a) => parse_action_spec(s@) == Some(a@),
            None => parse_action_spec(s@) is None,
        }),
{
    let cs = str_to_chars(s);
    proof {
        reveal_strlit("ACC");
    }
    if cs.len() == 3 {
        let c0 = cs[0];
        let c1 = cs[1];
        let c2 = cs[2];
        if c0 == 'A' && c1 == 'C' && c2 == 'C' {
            assert(s@ =~= "ACC"@);
            return Some(Action::Accept);
        }
    }
    assert(s@ != "ACC"@) by {
        if s@ == "ACC"@ {
            assert(cs@.len() == 3);
            assert(cs@[0] == 'A' && cs@[1] == 'C' && cs@[2] == 'C');
        }
    }
    if cs.len() < 2 {
        return None;
    }
    let c0 = cs[0];
    let c1 = cs[1];
    if c0 == 'S' && c1 == ' ' {
        proof {
            assert(cs@.subrange(2, cs@.len() as int) =~= s@.skip(2));
        }
        return match parse_digits(&cs, 2, cs.len()) {
            Some(v) => Some(Action::Shift(v)),
            None => None,
        };
    }
    if !(c0 == 'R' && c1 == ' ') {
        return None;
    }
    let ghost rest = s@.skip(2);
    let mut j: usize = 2;
    while j < cs.len()
        invariant
            2 <= j,
            j <= cs@.len(),
            forall|k: int| 2 <= k < j ==> cs@[k] != ' ',
        decreases cs@.len() - j,
    {
        if cs[j] == ' ' {
            break;
        }
        j = j + 1;
    }
    if j == cs.len() {
        proof {
            assert(forall|k: int| 0 <= k < rest.len() ==> rest[k] != ' ');
            lemma_find_char_none(rest, ' ');
        }
        return None;
    }
    proof {
        assert(rest[j - 2] == ' ');
        lemma_find_char_at(rest, ' ', j - 2);
    }
    let ghost ds = rest.take(j - 2);
    let ghost name = rest.skip(j - 2 + 1);
    proof {
        assert(cs@.subrange(2, j as int) =~= ds);
        assert(cs@.subrange(j + 1, cs@.len() as int) =~= name);
    }
    let count = match parse_digits(&cs, 2, j) {
        Some(v) => v,
        None => {
            return None;
        },
    };
    if j + 1 == cs.len() {
        return None;
    }
    let mut k: usize = j + 1;
    while k < cs.len()
        invariant
            j + 1 <= k,
            k <= cs@.len(),
            forall|m: int| j + 1 <= m < k ==> cs@[m] != ' ',
        decreases cs@.len() - k,
    {
        if cs[k] == ' ' {
            proof {
                assert(name[k - j - 1] == ' ');
                lemma_find_char_some(name, ' ', k - j - 1);
            }
            return None;
        }
        k = k + 1;
    }
    proof {
        assert(forall|m: int| 0 <= m < name.len() ==> name[m] != ' ');
        lemma_find_char_none(name, ' ');
    }
    let name_chars = subvec_chars(&cs, j + 1, cs.len());
    let nt = chars_to_string(&name_chars);
    Some(Action::Reduce(count, nt))
}

/// The textual form of one state row, as the external table resource
/// stores it: the state number and every action cell and goto target still
/// as strings.
pub struct RawState {
    pub state: String,
    pub actions: Vec<(String, String)>,
    pub gotos: Vec<(String, Vec<(String, String)>)>,
}

/// The mathematical content of a [`RawState`].
pub ghost struct RawStateView {
    pub state: Seq<char>,
    pub actions: Seq<(Seq<char>, Seq<char>)>,
    pub gotos: Seq<(Seq<char>, Seq<(Seq<char>, Seq<char>)>)>,
}

/// The view of a list of key/text pairs.
pub open spec fn raw_pairs_view(s: Seq<(String, String)>) -> Seq<(Seq<char>, Seq<char>)> {
    Seq::new(s.len(), |i: int| (s[i].0@, s[i].1@))
}

/// The view of a raw goto table.
pub open spec fn raw_gotos_view(s: Seq<(String, Vec<(String, String)>)>) -> Seq<
    (Seq<char>, Seq<(Seq<char>, Seq<char>)>),
> {
    Seq::new(s.len(), |i: int| (s[i].0@, raw_pairs_view(s[i].1@)))
}

impl View for RawState {
    type V = RawStateView;

    open spec fn view(&self) -> RawStateView {
        RawStateView {
            state: self.state@,
            actions: raw_pairs_view(self.actions@),
            gotos: raw_gotos_view(self.gotos@),
        }
    }
}

/// The views of a raw row list.
pub open spec fn raw_rows_view(s: Seq<RawState>) -> Seq<RawStateView> {
    Seq::new(s.len(), |i: int| s[i]@)
}

/// Why loading the table failed: the first malformed cell, found left to
/// right, actions before gotos, row by row.
#[derive(Clone, Copy, Debug, PartialEq, Eq, Structural)]
pub enum TableError {
    /// A state key is not a number the machine can hold.
    InvalidStateId,
    /// An action cell is not `"ACC"`, `"S <state>"` or
    /// `"R <count> <nonterminal>"`.
    InvalidAction,
    /// A goto target is not a number the machine can hold.
    InvalidGotoTarget,
}

/// Prefixing already-loaded entries onto the rest of a load.
pub open spec fn prepend_entries<V>(
    pre: Seq<(Seq<char>, V)>,
    r: Result<Seq<(Seq<char>, V)>, TableError>,
) -> Result<Seq<(Seq<char>, V)>, TableError> {
    match r {
        Ok(rest) => Ok(pre + rest),
        Err(e) => Err(e),
    }
}

/// Loading a row's action cells: each text parsed as an action, the first
/// malformed one reported.
pub open spec fn load_actions_spec(s: Seq<(Seq<char>, Seq<char>)>) -> Result<
    Seq<(Seq<char>, ActionV)>,
    TableError,
>
    decreases s.len(),
{
    if s.len() == 0 {
        Ok(Seq::empty())
    } else {
        match parse_action_spec(s[0].1) {
            None => Err(TableError::InvalidAction),
            Some(a) => match load_actions_spec(s.drop_first()) {
                Err(e) => Err(e),
                Ok(rest) => Ok(seq![(s[0].0, a)] + rest),
            },
        }
    }
}

/// Loading a goto row's targets: each text parsed as a state number.
pub open spec fn load_targets_spec(s: Seq<(Seq<char>, Seq<char>)>) -> Result<
    Seq<(Seq<char>, int)>,
    TableError,
>
    decreases s.len(),
{
    if s.len() == 0 {
        Ok(Seq::empty())
    } else if !valid_nat_str(s[0].1) {
        Err(TableError::InvalidGotoTarget)
    } else {
        match load_targets_spec(s.drop_first()) {
            Err(e) => Err(e),
            Ok(rest) => Ok(seq![(s[0].0, digits_val(s[0].1))] + rest),
        }
    }
}

/// Loading a row's goto table.
pub open spec fn load_gotos_spec(s: Seq<(Seq<char>, Seq<(Seq<char>, Seq<char>)>)>) -> Result<
    Seq<(Seq<char>, Seq<(Seq<char>, int)>)>,
    TableError,
>
    decreases s.len(),
{
    if s.len() == 0 {
        Ok(Seq::empty())
    } else {
        match load_targets_spec(s[0].1) {
            Err(e) => Err(e),
            Ok(inner) => match load_gotos_spec(s.drop_first()) {
                Err(e) => Err(e),
                Ok(rest) => Ok(seq![(s[0].0, inner)] + rest),
            },
        }
    }
}

/// Loading one row: its state number, then its actions, then its gotos.
pub open spec fn load_row_spec(r: RawStateView) -> Result<(int, StateView), TableError> {
    if !valid_nat_str(r.state) {
        Err(TableError::InvalidStateId)
    } else {
        match load_actions_spec(r.actions) {
            Err(e) => Err(e),
            Ok(acts) => match load_gotos_spec(r.gotos) {
                Err(e) => Err(e),
                Ok(gs) => Ok((digits_val(r.state), StateView { actions: acts, gotos: gs })),
            },
        }
    }
}

/// Loading the whole table, row by row.
pub open spec fn load_table_spec(rows: Seq<RawStateView>) -> Result<TableView, TableError>
    decreases rows.len(),
{
    if rows.len() == 0 {
        Ok(TableView { rows: Seq::empty() })
    } else {
        match load_row_spec(rows[0]) {
            Err(e) => Err(e),
            Ok(rv) => match load_table_spec(rows.drop_first()) {
                Err(e) => Err(e),
                Ok(t) => Ok(TableView { rows: seq![rv] + t.rows }),
            },
        }
    }
}

/// Parses a whole string as a state number.
fn parse_usize_str(s: &String) -> (r: Option<usize>)
    ensures
        (match r {
            Some(v) => valid_nat_str(s@) && v as int == digits_val(s@),
            None => !valid_nat_str(s@),
        }),
{
    let cs = str_to_chars(s.as_str());
    assert(cs@.subrange(0, cs@.len() as int) =~= s@);
    parse_digits(&cs, 0, cs.len())
}

#[verifier::loop_isolation(false)]
fn load_actions(entries: &Vec<(String, String)>) -> (r: Result<Vec<(String, Action)>, TableError>)
    ensures
        (match r {
            Ok(v) => load_actions_spec(raw_pairs_view(entries@)) == Result::<
                Seq<(Seq<char>, ActionV)>,
                TableError,
            >::Ok(actions_view(v@)),
            Err(e) => load_actions_spec(raw_pairs_view(entries@)) == Result::<
                Seq<(Seq<char>, ActionV)>,
                TableError,
            >::Err(e),
        }),
{
    let ghost raw = raw_pairs_view(entries@);
    let mut out: Vec<(String, Action)> = Vec::new();
    let mut i: usize = 0;
    proof {
        assert(raw.skip(0) =~= raw);
        assert(actions_view(out@) =~= Seq::<(Seq<char>, ActionV)>::empty());
    }
    while i < entries.len()
        invariant
            i <= entries@.len(),
            load_actions_spec(raw) == prepend_entries(
                actions_view(out@),
                load_actions_spec(raw.skip(i as int)),
            ),
        decreases entries@.len() - i,
    {
        let p = &entries[i];
        assert(raw.skip(i as int)[0] == (p.0@, p.1@));
        assert(raw.skip(i as int).drop_first() =~= raw.skip(i + 1));
        match parse_action_string(p.1.as_str()) {
            None => {
                return Err(TableError::InvalidAction);
            },
            Some(a) => {
                let ghost pre = actions_view(out@);
                let ghost av = a@;
                out.push((p.0.clone(), a));
                proof {
                    assert(actions_view(out@) =~= pre.push((p.0@, av)));
                    match load_actions_spec(raw.skip(i + 1)) {
                        Ok(rest) => {
                            assert(pre + (seq![(p.0@, av)] + rest) =~= pre.push((p.0@, av))
                                + rest);
                        },
                        Err(e) => {},
                    }
                }
            },
        }
        i = i + 1;
    }
    proof {
        assert(raw.skip(raw.len() as int) =~= Seq::<(Seq<char>, Seq<char>)>::empty());
        assert(actions_view(out@) + Seq::<(Seq<char>, ActionV)>::empty() =~= actions_view(out@));
    }
    Ok(out)
}

#[verifier::loop_isolation(false)]
fn load_targets(entries: &Vec<(String, String)>) -> (r: Result<Vec<(String, usize)>, TableError>)
    ensures
        (match r {
            Ok(v) => load_targets_spec(raw_pairs_view(entries@)) == Result::<
                Seq<(Seq<char>, int)>,
                TableError,
            >::Ok(goto_inner_view(v@)),
            Err(e) => load_targets_spec(raw_pairs_view(entries@)) == Result::<
                Seq<(Seq<char>, int)>,
                TableError,
            >::Err(e),
        }),
{
    let ghost raw = raw_pairs_view(entries@);
    let mut out: Vec<(String, usize)> = Vec::new();
    let mut i: usize = 0;
    proof {
        assert(raw.skip(0) =~= raw);
        assert(goto_inner_view(out@) =~= Seq::<(Seq<char>, int)>::empty());
    }
    while i < entries.len()
        invariant
            i <= entries@.len(),
            load_targets_spec(raw) == prepend_entries(
                goto_inner_view(out@),
                load_targets_spec(raw.skip(i as int)),
            ),
        decreases entries@.len() - i,
    {
        let p = &entries[i];
        assert(raw.skip(i as int)[0] == (p.0@, p.1@));
        assert(raw.skip(i as int).drop_first() =~= raw.skip(i + 1));
        match parse_usize_str(&p.1) {
            None => {
                return Err(TableError::InvalidGotoTarget);
            },
            Some(g) => {
                let ghost pre = goto_inner_view(out@);
                out.push((p.0.clone(), g));
                proof {
                    assert(goto_inner_view(out@) =~= pre.push((p.0@, g as int)));
                    match load_targets_spec(raw.skip(i + 1)) {
                        Ok(rest) => {
                            assert(pre + (seq![(p.0@, g as int)] + rest) =~= pre.push(
                                (p.0@, g as int),
                            ) + rest);
                        },
                        Err(e) => {},
                    }
                }
            },
        }
        i = i + 1;
    }
    proof {
        assert(raw.skip(raw.len() as int) =~= Seq::<(Seq<char>, Seq<char>)>::empty());
        assert(goto_inner_view(out@) + Seq::<(Seq<char>, int)>::empty() =~= goto_inner_view(
            out@,
        ));
    }
    Ok(out)
}

#[verifier::loop_isolation(false)]
fn load_gotos(entries: &Vec<(String, Vec<(String, String)>)>) -> (r: Result<
    Vec<(String, Vec<(String, usize)>)>,
    TableError,
>)
    ensures
        (match r {
            Ok(v) => load_gotos_spec(raw_gotos_view(entries@)) == Result::<
                Seq<(Seq<char>, Seq<(Seq<char>, int)>)>,
                TableError,
            >::Ok(goto_outer_view(v@)),
            Err(e) => load_gotos_spec(raw_gotos_view(entries@)) == Result::<
                Seq<(Seq<char>, Seq<(Seq<char>, int)>)>,
                TableError,
            >::Err(e),
        }),
{
    let ghost raw = raw_gotos_view(entries@);
    let mut out: Vec<(String, Vec<(String, usize)>)> = Vec::new();
    let mut i: usize = 0;
    proof {
        assert(raw.skip(0) =~= raw);
        assert(goto_outer_view(out@) =~= Seq::<(Seq<char>, Seq<(Seq<char>, int)>)>::empty());
    }
    while i < entries.len()
        invariant
            i <= entries@.len(),
            load_gotos_spec(raw) == (match load_gotos_spec(raw.skip(i as int)) {
                Ok(rest) => Result::<
                    Seq<(Seq<char>, Seq<(Seq<char>, int)>)>,
                    TableError,
                >::Ok(goto_outer_view(out@) + rest),
                Err(e) => Err(e),
            }),
        decreases entries@.len() - i,
    {
        let p = &entries[i];
        assert(raw.skip(i as int)[0] == (p.0@, raw_pairs_view(p.1@)));
        assert(raw.skip(i as int).drop_first() =~= raw.skip(i + 1));
        match load_targets(&p.1) {
            Err(e) => {
                return Err(e);
            },
            Ok(inner) => {
                let ghost pre = goto_outer_view(out@);
                let ghost iv = goto_inner_view(inner@);
                out.push((p.0.clone(), inner));
                proof {
                    assert(goto_outer_view(out@) =~= pre.push((p.0@, iv)));
                    match load_gotos_spec(raw.skip(i + 1)) {
                        Ok(rest) => {
                            assert(pre + (seq![(p.0@, iv)] + rest) =~= pre.push((p.0@, iv))
                                + rest);
                        },
                        Err(e) => {},
                    }
                }
            },
        }
        i = i + 1;
    }
    proof {
        assert(raw.skip(raw.len() as int) =~= Seq::<
            (Seq<char>, Seq<(Seq<char>, Seq<char>)>),
        >::empty());
        assert(goto_outer_view(out@) + Seq::<(Seq<char>, Seq<(Seq<char>, int)>)>::empty()
            =~= goto_outer_view(out@));
    }
    Ok(out)
}

/// Loads and validates the whole table from its textual rows, parsing
/// every state number, action cell and goto target; the first malformed
/// cell fails the load.
#[verifier::loop_isolation(false)]
pub fn load_table(rows: &Vec<RawState>) -> (r: Result<ParsingTable, TableError>)
    ensures
        (match r {
            Ok(t) => load_table_spec(raw_rows_view(rows@)) == Result::<
                TableView,
                TableError,
            >::Ok(t@),
            Err(e) => load_table_spec(raw_rows_view(rows@)) == Result::<
                TableView,
                TableError,
            >::Err(e),
        }),
{
    let ghost raw = raw_rows_view(rows@);
    let mut out: Vec<(usize, TableState)> = Vec::new();
    let mut i: usize = 0;
    proof {
        assert(raw.skip(0) =~= raw);
        assert(Seq::new(out@.len(), |k: int| (out@[k].0 as int, out@[k].1@)) =~= Seq::<
            (int, StateView),
        >::empty());
    }
    while i < rows.len()
        invariant
            i <= rows@.len(),
            load_table_spec(raw) == (match load_table_spec(raw.skip(i as int)) {
                Ok(t) => Result::<TableView, TableError>::Ok(
                    TableView {
                        rows: Seq::new(out@.len(), |k: int| (out@[k].0 as int, out@[k].1@))
                            + t.rows,
                    },
                ),
                Err(e) => Err(e),
            }),
        decreases rows@.len() - i,
    {
        let row = &rows[i];
        assert(raw.skip(i as int)[0] == row@);
        assert(raw.skip(i as int).drop_first() =~= raw.skip(i + 1));
        let id = match parse_usize_str(&row.state) {
            None => {
                return Err(TableError::InvalidStateId);
            },
            Some(v) => v,
        };
        let actions = match load_actions(&row.actions) {
            Err(e) => {
                return Err(e);
            },
            Ok(v) => v,
        };
        let gotos = match load_gotos(&row.gotos) {
            Err(e) => {
                return Err(e);
            },
            Ok(v) => v,
        };
        let state = TableState { actions: actions, gotos: gotos };
        let ghost pre = Seq::new(out@.len(), |k: int| (out@[k].0 as int, out@[k].1@));
        let ghost sv = state@;
        proof {
            assert(load_row_spec(row@) == Result::<(int, StateView), TableError>::Ok(
                (id as int, sv),
            ));
        }
        out.push((id, state));
        proof {
            assert(Seq::new(out@.len(), |k: int| (out@[k].0 as int, out@[k].1@)) =~= pre.push(
                (id as int, sv),
            ));
            match load_table_spec(raw.skip(i + 1)) {
                Ok(t) => {
                    assert(pre + (seq![(id as int, sv)] + t.rows) =~= pre.push((id as int, sv))
                        + t.rows);
                },
                Err(e) => {},
            }
        }
        i = i + 1;
    }
    proof {
        assert(raw.skip(raw.len() as int) =~= Seq::<RawStateView>::empty());
        assert(Seq::new(out@.len(), |k: int| (out@[k].0 as int, out@[k].1@)) + Seq::<
            (int, StateView),
        >::empty() =~= Seq::new(out@.len(), |k: int| (out@[k].0 as int, out@[k].1@)));
    }
    Ok(ParsingTable { rows: out })
}

/// First exact match among a goto row's target entries.
fn assoc_goto(entries: &Vec<(String, usize)>, key: &String) -> (r: Option<usize>)
    ensures
        match r {
            Some(g) => find_assoc(goto_inner_view(entries@), key@) == Some(g as int),
            None => find_assoc(goto_inner_view(entries@), key@) is None,
        },
{
    let mut i: usize = 0;
    assert(goto_inner_view(entries@).skip(0) =~= goto_inner_view(entries@));
    while i < entries.len()
        invariant
            i <= entries@.len(),
            find_assoc(goto_inner_view(entries@), key@) == find_assoc(
                goto_inner_view(entries@).skip(i as int),
                key@,
            ),
        decreases entries@.len() - i,
    {
        let p = &entries[i];
        assert(goto_inner_view(entries@).skip(i as int)[0] == (p.0@, p.1 as int));
        if p.0 == *key {
            return Some(p.1);
        }
        assert(goto_inner_view(entries@).skip(i as int).drop_first() =~= goto_inner_view(
            entries@,
        ).skip(i + 1));
        i = i + 1;
    }
    assert(goto_inner_view(entries@).skip(i as int) =~= Seq::<(Seq<char>, int)>::empty());
    None
}

} // verus!
