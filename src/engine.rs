use vstd::prelude::*;
use vstd::utf8::encode_utf8;
use crate::context::{Context, CtxView, run_action, run_items, lemma_items_keep_invariants, lemma_action_keeps_invariants};
use crate::element::{Element, Sexp, views, lemma_list_view};
use crate::im_info::{
    ImInfo, ImView, StateView, BranchView, NamedMap, State, load, load_im_info, maps_view,
    maps_wf, states_view,
};
use crate::keyseq::KeySeqMap;

use crate::text::{chars_of, string_of, push_utf8_run};
use crate::reader::{parse_mim, parse_top};

verus! {

/// The longest key sequence, in characters, that a match may take.
pub const MAX_KEYSEQ_LEN: usize = 10;

/// The largest `n' <= n` such that the UTF-8 text of `tail[..n']` is a key of
/// `table`, or 0 if there is none.
pub open spec fn longest_match(table: Map<Seq<u8>, Sexp>, tail: Seq<char>, n: int) -> int
    decreases n,
{
    if n <= 0 {
        0
    } else if table.contains_key(encode_utf8(tail.take(n))) {
        n
    } else {
        longest_match(table, tail, n - 1)
    }
}

/// How many characters of `tail` a table matches: the longest match of at most
/// `MAX_KEYSEQ_LEN` characters.
pub open spec fn match_len(table: Map<Seq<u8>, Sexp>, tail: Seq<char>) -> int {
    longest_match(
        table,
        tail,
        if tail.len() < MAX_KEYSEQ_LEN {
            tail.len() as int
        } else {
            MAX_KEYSEQ_LEN as int
        },
    )
}

/// The table of the last map named `name` among `maps[..n]`.
pub open spec fn map_lookup(maps: Seq<(Seq<char>, Map<Seq<u8>, Sexp>)>, name: Seq<char>, n: int) -> Option<
    Map<Seq<u8>, Sexp>,
>
    decreases n,
{
    if n <= 0 || n > maps.len() {
        None
    } else if maps[n - 1].0 == name {
        Some(maps[n - 1].1)
    } else {
        map_lookup(maps, name, n - 1)
    }
}

/// The first state named `name` among `states[i..]`.
pub open spec fn find_state(states: Seq<StateView>, name: Seq<char>, i: int) -> Option<StateView>
    decreases states.len() - i,
{
    if i < 0 || i >= states.len() {
        None
    } else if states[i].name == name {
        Some(states[i])
    } else {
        find_state(states, name, i + 1)
    }
}

/// Performs the actions stored for a matched key sequence.
pub open spec fn run_map_actions(c: CtxView, acts: Sexp) -> CtxView {
    match acts {
        Sexp::List(items) => run_items(c, items, 0),
        _ => run_action(c, acts),
    }
}

/// The first of the branches `bs[j..]` whose map matches the start of `tail`:
/// the length matched and the context after the map's actions and the branch's
/// own; `(0, c)` when none matches.
pub open spec fn try_branches(im: ImView, bs: Seq<BranchView>, j: int, c: CtxView, tail: Seq<char>) -> (int, CtxView)
    decreases bs.len() - j,
{
    if j < 0 || j >= bs.len() {
        (0, c)
    } else {
        match map_lookup(im.maps, bs[j].map_name, im.maps.len() as int) {
            None => try_branches(im, bs, j + 1, c, tail),
            Some(t) => {
                let n = match_len(t, tail);
                if n == 0 {
                    try_branches(im, bs, j + 1, c, tail)
                } else {
                    let c1 = run_map_actions(c, t[encode_utf8(tail.take(n))]);
                    (n, run_items(c1, bs[j].actions, 0))
                }
            },
        }
    }
}

/// One step of a conversion at the start of `tail`, in the current state.
pub open spec fn step(im: ImView, c: CtxView, tail: Seq<char>) -> (int, CtxView) {
    match find_state(im.states, c.state, 0) {
        None => (0, c),
        Some(s) => try_branches(im, s.branches, 0, c, tail),
    }
}

/// The context after converting `input[i..]` from `c`, with the preedit committed.
pub open spec fn convert_from(im: ImView, c: CtxView, input: Seq<char>, i: int) -> CtxView
    decreases input.len() - i,
{
    if i < 0 || i >= input.len() {
        c.commit()
    } else {
        let (n, c1) = step(im, c, input.skip(i));
        if 0 < n <= input.len() - i {
            convert_from(im, c1, input, i + n)
        } else {
            let c2 = c.commit();
            convert_from(im, CtxView { committed: c2.committed.push(input[i]), ..c2 }, input, i + 1)
        }
    }
}

/// The state a conversion starts in: the first declared, or `init`.
pub open spec fn initial_state(im: ImView) -> Seq<char> {
    if im.states.len() > 0 {
        im.states[0].name
    } else {
        "init"@
    }
}

pub open spec fn fresh_context(state: Seq<char>) -> CtxView {
    CtxView {
        preedit: Seq::empty(),
        cursor: 0,
        committed: Seq::empty(),
        vars: Map::empty(),
        state,
    }
}

/// The committed text that typing `input` through an input method yields.
pub open spec fn convert_spec(im: ImView, input: Seq<char>) -> Seq<char> {
    convert_from(im, fresh_context(initial_state(im)), input, 0).committed
}

proof fn lemma_longest_match_bound(table: Map<Seq<u8>, Sexp>, tail: Seq<char>, n: int)
    ensures
        0 <= longest_match(table, tail, n),
        n >= 0 ==> longest_match(table, tail, n) <= n,
    decreases n,
{
    if n > 0 {
        lemma_longest_match_bound(table, tail, n - 1);
    }
}

proof fn lemma_try_branches_bound(im: ImView, bs: Seq<BranchView>, j: int, c: CtxView, tail: Seq<char>)
    ensures
        0 <= try_branches(im, bs, j, c, tail).0 <= tail.len(),
        try_branches(im, bs, j, c, tail).0 <= MAX_KEYSEQ_LEN,
        try_branches(im, bs, j, c, tail).0 == 0 ==> try_branches(im, bs, j, c, tail).1 == c,
    decreases bs.len() - j,
{
    if 0 <= j < bs.len() {
        lemma_try_branches_bound(im, bs, j + 1, c, tail);
        match map_lookup(im.maps, bs[j].map_name, im.maps.len() as int) {
            None => {},
            Some(t) => {
                let m = if tail.len() < MAX_KEYSEQ_LEN {
                    tail.len() as int
                } else {
                    MAX_KEYSEQ_LEN as int
                };
                lemma_longest_match_bound(t, tail, m);
            },
        }
    }
}

/// A step matches at most `MAX_KEYSEQ_LEN` characters, and no more than are
/// left; a step that matches nothing leaves the context as it was.
pub proof fn lemma_step_bound(im: ImView, c: CtxView, tail: Seq<char>)
    ensures
        0 <= step(im, c, tail).0 <= tail.len(),
        step(im, c, tail).0 <= MAX_KEYSEQ_LEN,
        step(im, c, tail).0 == 0 ==> step(im, c, tail).1 == c,
{
    match find_state(im.states, c.state, 0) {
        None => {},
        Some(s) => lemma_try_branches_bound(im, s.branches, 0, c, tail),
    }
}

/// An input method, ready to convert text.
pub struct M17nMim {
    pub im_info: ImInfo,
}

impl M17nMim {
    pub open spec fn view(&self) -> ImView {
        self.im_info@
    }

    pub open spec fn wf(&self) -> bool {
        self.im_info.wf()
    }
}

} // verus!

verus! {

/// The last map named `name`.
fn find_map<'a>(maps: &'a Vec<NamedMap>, name: &String) -> (r: Option<&'a KeySeqMap>)
    requires
        maps_wf(maps@),
    ensures
        r is Some <==> map_lookup(maps_view(maps@), name@, maps@.len() as int) is Some,
        r matches Some(t) ==> t.wf() && t@ == map_lookup(maps_view(maps@), name@, maps@.len() as int)->0,
{
    let ghost mv = maps_view(maps@);
    let mut k = maps.len();
    while k > 0
        invariant
            k <= maps@.len(),
            mv == maps_view(maps@),
            maps_wf(maps@),
            map_lookup(mv, name@, maps@.len() as int) == map_lookup(mv, name@, k as int),
        decreases k,
    {
        if maps[k - 1].name == *name {
            assert(maps[k - 1].table.wf());
            assert(mv[k - 1] == (maps@[k - 1].name@, maps@[k - 1].table@));
            return Some(&maps[k - 1].table);
        }
        k = k - 1;
    }
    None
}

/// The first state named `name`.
fn find_state_exec<'a>(states: &'a Vec<State>, name: &String) -> (r: Option<&'a State>)
    ensures
        r is Some <==> find_state(states_view(states@), name@, 0) is Some,
        r matches Some(s) ==> s@ == find_state(states_view(states@), name@, 0)->0,
{
    let ghost sv = states_view(states@);
    let mut i: usize = 0;
    while i < states.len()
        invariant
            i <= states@.len(),
            sv == states_view(states@),
            find_state(sv, name@, 0) == find_state(sv, name@, i as int),
        decreases states@.len() - i,
    {
        if states[i].name == *name {
            return Some(&states[i]);
        }
        i = i + 1;
    }
    None
}

impl Context {
    /// Matches the longest key sequence of `table` at `input[start..]` and performs
    /// its actions; returns the number of characters matched.
    pub fn match_keys(&mut self, table: &KeySeqMap, input: &Vec<char>, start: usize) -> (r: usize)
        requires
            table.wf(),
            start <= input@.len(),
            old(self).wf(),
        ensures
            r == match_len(table@, input@.skip(start as int)),
            r > 0 ==> final(self)@ == run_map_actions(
                old(self)@,
                table@[encode_utf8(input@.skip(start as int).take(r as int))],
            ),
            r == 0 ==> final(self)@ == old(self)@,
            final(self).wf(),
    {
        let ghost tail = input@.skip(start as int);
        let rem = input.len() - start;
        let mut len = if rem < MAX_KEYSEQ_LEN {
            rem
        } else {
            MAX_KEYSEQ_LEN
        };
        let n = input.len();
        while len > 0
            invariant
                n == input@.len(),
                table.wf(),
                self@ == old(self)@,
                self.wf(),
                tail == input@.skip(start as int),
                start + len <= input@.len(),
                match_len(table@, tail) == longest_match(table@, tail, len as int),
            decreases len,
        {
            let mut key: Vec<u8> = Vec::new();
            push_utf8_run(&mut key, input.as_slice(), start, start + len);
            assert(input@.subrange(start as int, start + len) =~= tail.take(len as int));
            assert(key@ =~= encode_utf8(tail.take(len as int)));
            match table.lookup(key.as_slice()) {
                Some(actions) => {
                    match actions {
                        Element::List(items) => {
                            proof {
                                lemma_list_view(*actions);
                            }
                            self.run_actions(items, 0);
                        },
                        _ => self.execute_action(actions),
                    }
                    return len;
                },
                None => {},
            }
            len = len - 1;
        }
        0
    }

    /// One conversion step at `input[start..]` (see `step`).
    pub fn process_key(&mut self, im_info: &ImInfo, input: &Vec<char>, start: usize) -> (r: usize)
        requires
            im_info.wf(),
            start <= input@.len(),
            old(self).wf(),
        ensures
            (r as int, final(self)@) == step(im_info@, old(self)@, input@.skip(start as int)),
            final(self).wf(),
    {
        let ghost tail = input@.skip(start as int);
        let state = match find_state_exec(&im_info.states, &self.current_state) {
            Some(s) => s,
            None => {
                return 0;
            },
        };
        let ghost sv = state@;
        let ghost start_ctx = self@;
        let mut j: usize = 0;
        while j < state.branches.len()
            invariant
                im_info.wf(),
                start <= input@.len(),
                tail == input@.skip(start as int),
                sv == state@,
                self@ == start_ctx,
                start_ctx == old(self)@,
                find_state(im_info@.states, start_ctx.state, 0) == Some(sv),
                self.wf(),
                try_branches(im_info@, sv.branches, 0, start_ctx, tail) == try_branches(
                    im_info@,
                    sv.branches,
                    j as int,
                    start_ctx,
                    tail,
                ),
            decreases state.branches@.len() - j,
        {
            let branch = &state.branches[j];
            assert(sv.branches[j as int] == branch@);
            match find_map(&im_info.maps, &branch.map_name) {
                Some(table) => {
                    let matched = self.match_keys(table, input, start);
                    if matched > 0 {
                        assert(im_info@.maps == maps_view(im_info.maps@));
                        self.run_actions(&branch.actions, 0);
                        assert(views(branch.actions@) == Seq::new(branch.actions@.len(), |i: int| branch.actions@[i]@));
                        return matched;
                    }
                },
                None => {},
            }
            j = j + 1;
        }
        0
    }
}

impl M17nMim {
    /// Converts `input`: the committed text that typing it yields.
    pub fn convert(&self, input: &str) -> (r: String)
        requires
            self.wf(),
        ensures
            r@ == convert_spec(self@, input@),
    {
        let initial = if self.im_info.states.len() > 0 {
            self.im_info.states[0].name.clone()
        } else {
            String::from_str("init")
        };
        let mut ctx = Context::new(initial);
        let input_chars = chars_of(input);
        let ghost s = input_chars@;
        let mut i: usize = 0;
        while i < input_chars.len()
            invariant
                self.wf(),
                s == input_chars@,
                s == input@,
                i <= s.len(),
                ctx.wf(),
                convert_spec(self@, s) == convert_from(self@, ctx@, s, i as int).committed,
            decreases s.len() - i,
        {
            let ghost old_ctx = ctx@;
            let matched = ctx.process_key(&self.im_info, &input_chars, i);
            proof {
                lemma_step_bound(self@, old_ctx, s.skip(i as int));
            }
            if matched > 0 && matched <= input_chars.len() - i {
                i = i + matched;
            } else {
                ctx.commit();
                ctx.committed.push(input_chars[i]);
                i = i + 1;
            }
        }
        ctx.commit();
        string_of(ctx.committed.as_slice())
    }
}

} // verus!

verus! {

/// The input method that a document's text describes.
pub open spec fn compile(text: Seq<char>) -> ImView {
    load(Sexp::List(parse_top(text, 0)))
}

impl M17nMim {
    /// Reads and compiles a document.
    pub fn new(mim_str: &str) -> (r: M17nMim)
        ensures
            r@ == compile(mim_str@),
            r.wf(),
    {
        let list = parse_mim(mim_str);
        let im_info = load_im_info(list);
        M17nMim { im_info }
    }

    pub fn get_lang(&self) -> (r: String)
        ensures
            r@ == self@.lang,
    {
        self.im_info.lang.clone()
    }

    pub fn get_name(&self) -> (r: String)
        ensures
            r@ == self@.name,
    {
        self.im_info.name.clone()
    }

    pub fn get_title(&self) -> (r: String)
        ensures
            r@ == self@.title,
    {
        self.im_info.title.clone()
    }

    pub fn get_description(&self) -> (r: String)
        ensures
            r@ == self@.description,
    {
        self.im_info.description.clone()
    }
}

} // verus!

verus! {

proof fn lemma_try_branches_keeps_invariants(im: ImView, bs: Seq<BranchView>, j: int, c: CtxView, tail: Seq<char>)
    requires
        c.wf(),
    ensures
        try_branches(im, bs, j, c, tail).1.wf(),
        c.committed.is_prefix_of(try_branches(im, bs, j, c, tail).1.committed),
    decreases bs.len() - j,
{
    if 0 <= j < bs.len() {
        lemma_try_branches_keeps_invariants(im, bs, j + 1, c, tail);
        match map_lookup(im.maps, bs[j].map_name, im.maps.len() as int) {
            None => {},
            Some(t) => {
                let n = match_len(t, tail);
                if n != 0 {
                    let acts = t[encode_utf8(tail.take(n))];
                    let c1 = run_map_actions(c, acts);
                    match acts {
                        Sexp::List(items) => lemma_items_keep_invariants(c, items, 0),
                        _ => lemma_action_keeps_invariants(c, acts),
                    }
                    lemma_items_keep_invariants(c1, bs[j].actions, 0);
                }
            },
        }
    }
}

/// A step keeps the cursor inside the preedit and only ever extends the
/// committed text.
pub proof fn lemma_step_keeps_invariants(im: ImView, c: CtxView, tail: Seq<char>)
    requires
        c.wf(),
    ensures
        step(im, c, tail).1.wf(),
        c.committed.is_prefix_of(step(im, c, tail).1.committed),
{
    match find_state(im.states, c.state, 0) {
        None => {},
        Some(s) => lemma_try_branches_keeps_invariants(im, s.branches, 0, c, tail),
    }
}

/// Through a whole conversion the cursor stays inside the preedit and the
/// committed text only grows.
pub proof fn lemma_convert_keeps_invariants(im: ImView, c: CtxView, input: Seq<char>, i: int)
    requires
        c.wf(),
    ensures
        convert_from(im, c, input, i).wf(),
        c.committed.is_prefix_of(convert_from(im, c, input, i).committed),
    decreases input.len() - i,
{
    assert(c.committed.is_prefix_of(c.commit().committed));
    if 0 <= i < input.len() {
        let (n, c1) = step(im, c, input.skip(i));
        if 0 < n <= input.len() - i {
            lemma_step_keeps_invariants(im, c, input.skip(i));
            lemma_convert_keeps_invariants(im, c1, input, i + n);
        } else {
            let c2 = c.commit();
            let c3 = CtxView { committed: c2.committed.push(input[i]), ..c2 };
            assert(c.committed.is_prefix_of(c3.committed));
            lemma_convert_keeps_invariants(im, c3, input, i + 1);
        }
    }
}

/// Converting the empty text yields the empty text.
pub proof fn lemma_convert_empty(im: ImView)
    ensures
        convert_spec(im, Seq::empty()) == Seq::<char>::empty(),
{
    assert(fresh_context(initial_state(im)).commit().committed =~= Seq::<char>::empty());
}

/// The result of a conversion depends on the compiled input method and the
/// input alone.
pub proof fn lemma_convert_deterministic(im1: ImView, im2: ImView, x1: Seq<char>, x2: Seq<char>)
    requires
        im1 == im2,
        x1 == x2,
    ensures
        convert_spec(im1, x1) == convert_spec(im2, x2),
{
}

proof fn lemma_try_branches_len_ignores_context(
    im: ImView,
    bs: Seq<BranchView>,
    j: int,
    c1: CtxView,
    c2: CtxView,
    tail: Seq<char>,
)
    ensures
        try_branches(im, bs, j, c1, tail).0 == try_branches(im, bs, j, c2, tail).0,
    decreases bs.len() - j,
{
    if 0 <= j < bs.len() {
        lemma_try_branches_len_ignores_context(im, bs, j + 1, c1, c2, tail);
    }
}

/// Whether no key sequence of the initial state's maps matches at any position
/// of `x`.
pub open spec fn nothing_matches(im: ImView, x: Seq<char>) -> bool {
    forall|i: int|
        0 <= i < x.len() ==> (#[trigger] step(im, fresh_context(initial_state(im)), x.skip(i))).0 == 0
}

proof fn lemma_pass_through_from(im: ImView, x: Seq<char>, i: int, vars: Map<Seq<char>, i64>)
    requires
        0 <= i <= x.len(),
        nothing_matches(im, x),
    ensures
        convert_from(
            im,
            CtxView {
                preedit: Seq::empty(),
                cursor: 0,
                committed: x.take(i),
                vars,
                state: initial_state(im),
            },
            x,
            i,
        ).committed == x,
    decreases x.len() - i,
{
    let c = CtxView {
        preedit: Seq::empty(),
        cursor: 0,
        committed: x.take(i),
        vars,
        state: initial_state(im),
    };
    if i < x.len() {
        let f = fresh_context(initial_state(im));
        assert(step(im, f, x.skip(i)).0 == 0);
        match find_state(im.states, c.state, 0) {
            None => {},
            Some(s) => lemma_try_branches_len_ignores_context(im, s.branches, 0, c, f, x.skip(i)),
        }
        assert(step(im, c, x.skip(i)).0 == 0);
        assert(c.commit().committed.push(x[i]) =~= x.take(i + 1));
        assert(c.commit().preedit =~= Seq::<char>::empty());
        lemma_pass_through_from(im, x, i + 1, vars);
    } else {
        assert(x.take(i) + Seq::<char>::empty() =~= x);
    }
}

/// Text in which no key sequence of the initial state matches passes through
/// unchanged.
pub proof fn lemma_pass_through(im: ImView, x: Seq<char>)
    requires
        nothing_matches(im, x),
    ensures
        convert_spec(im, x) == x,
{
    assert(x.take(0) =~= Seq::<char>::empty());
    assert(fresh_context(initial_state(im)) == CtxView {
        preedit: Seq::empty(),
        cursor: 0,
        committed: x.take(0),
        vars: Map::empty(),
        state: initial_state(im),
    });
    lemma_pass_through_from(im, x, 0, Map::empty());
}

/// Whether branch `b` matches the start of `tail`.
pub open spec fn branch_matches(im: ImView, b: BranchView, tail: Seq<char>) -> bool {
    match map_lookup(im.maps, b.map_name, im.maps.len() as int) {
        None => false,
        Some(t) => match_len(t, tail) > 0,
    }
}

/// The first branch that matches decides the step, whatever later branches
/// could match.
pub proof fn lemma_first_matching_branch_wins(
    im: ImView,
    bs: Seq<BranchView>,
    k: int,
    c: CtxView,
    tail: Seq<char>,
)
    requires
        0 <= k < bs.len(),
        branch_matches(im, bs[k], tail),
        forall|m: int| 0 <= m < k ==> !branch_matches(im, #[trigger] bs[m], tail),
    ensures
        try_branches(im, bs, 0, c, tail) == try_branches(im, bs, k, c, tail),
        try_branches(im, bs, 0, c, tail).0 == match_len(
            map_lookup(im.maps, bs[k].map_name, im.maps.len() as int)->0,
            tail,
        ),
{
    lemma_skip_non_matching(im, bs, 0, k, c, tail);
}

proof fn lemma_skip_non_matching(im: ImView, bs: Seq<BranchView>, j: int, k: int, c: CtxView, tail: Seq<char>)
    requires
        0 <= j <= k < bs.len(),
        forall|m: int| 0 <= m < k ==> !branch_matches(im, #[trigger] bs[m], tail),
    ensures
        try_branches(im, bs, j, c, tail) == try_branches(im, bs, k, c, tail),
    decreases k - j,
{
    if j < k {
        assert(!branch_matches(im, bs[j], tail));
        match map_lookup(im.maps, bs[j].map_name, im.maps.len() as int) {
            None => {},
            Some(t) => {
                lemma_longest_match_bound(
                    t,
                    tail,
                    if tail.len() < MAX_KEYSEQ_LEN {
                        tail.len() as int
                    } else {
                        MAX_KEYSEQ_LEN as int
                    },
                );
            },
        }
        assert(try_branches(im, bs, j, c, tail) == try_branches(im, bs, j + 1, c, tail));
        lemma_skip_non_matching(im, bs, j + 1, k, c, tail);
    }
}

} // verus!
