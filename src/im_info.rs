use vstd::prelude::*;
use vstd::utf8::encode_utf8;
use crate::element::{Element, Sexp, views, copy_elements, lemma_list_view};
use crate::keyseq::{KeySeqMap, rule_table, rules_view};
use crate::text::{text_is, chars_of, push_utf8_run};

verus! {

/// The decimal digits of `n`, as ASCII bytes.
pub open spec fn nat_bytes(n: nat) -> Seq<u8>
    decreases n,
{
    if n < 10 {
        seq![(48 + n) as u8]
    } else {
        nat_bytes(n / 10) + seq![(48 + n % 10) as u8]
    }
}

/// The decimal text of `i`, as ASCII bytes.
pub open spec fn int_bytes(i: int) -> Seq<u8> {
    if i < 0 {
        seq![45u8] + nat_bytes((-i) as nat)
    } else {
        nat_bytes(i as nat)
    }
}

/// The key bytes that a keyseq form stands for: the UTF-8 text of strings and
/// symbols, the decimal text of integers, and lists joined.
pub open spec fn keyseq(e: Sexp) -> Seq<u8>
    decreases e, 0int,
{
    match e {
        Sexp::Str(s) => encode_utf8(s),
        Sexp::Sym(s) => encode_utf8(s),
        Sexp::Int(i) => int_bytes(i as int),
        Sexp::List(l) => keyseq_items(l, 0),
    }
}

/// The key bytes of `l[i..]`, joined.
pub open spec fn keyseq_items(l: Seq<Sexp>, i: int) -> Seq<u8>
    decreases l, l.len() - i,
{
    if i < 0 || i >= l.len() {
        Seq::empty()
    } else {
        keyseq(l[i]) + keyseq_items(l, i + 1)
    }
}

/// The rules `md[j..]` of a map definition: each non-empty list gives its keyseq
/// and the list of its actions.
pub open spec fn map_rules(md: Seq<Sexp>, j: int) -> Seq<(Seq<u8>, Sexp)>
    decreases md.len() - j,
{
    if j < 0 || j >= md.len() {
        Seq::empty()
    } else {
        let rest = map_rules(md, j + 1);
        match md[j] {
            Sexp::List(rp) => if rp.len() > 0 {
                seq![(keyseq(rp[0]), Sexp::List(rp.skip(1)))] + rest
            } else {
                rest
            },
            _ => rest,
        }
    }
}

/// Whether a map definition has a name and at least one rule.
pub open spec fn is_map_def(d: Sexp) -> bool {
    d is List && d->List_0.len() > 0 && d->List_0[0] is Sym && map_rules(d->List_0, 1).len() > 0
}

/// The compiled maps of the definitions `defs[i..]`, in order.
pub open spec fn compile_maps(defs: Seq<Sexp>, i: int) -> Seq<(Seq<char>, Map<Seq<u8>, Sexp>)>
    decreases defs.len() - i,
{
    if i < 0 || i >= defs.len() {
        Seq::empty()
    } else if is_map_def(defs[i]) {
        let md = defs[i]->List_0;
        seq![(md[0]->Sym_0, rule_table(map_rules(md, 1)))] + compile_maps(defs, i + 1)
    } else {
        compile_maps(defs, i + 1)
    }
}

/// A branch of a state: the name of a map and the actions that follow a match.
pub struct BranchView {
    pub map_name: Seq<char>,
    pub actions: Seq<Sexp>,
}

pub struct StateView {
    pub name: Seq<char>,
    pub branches: Seq<BranchView>,
}

pub open spec fn is_branch_def(d: Sexp) -> bool {
    d is List && d->List_0.len() > 0 && d->List_0[0] is Sym
}

/// The branches `sd[j..]` of a state definition.
pub open spec fn compile_branches(sd: Seq<Sexp>, j: int) -> Seq<BranchView>
    decreases sd.len() - j,
{
    if j < 0 || j >= sd.len() {
        Seq::empty()
    } else if is_branch_def(sd[j]) {
        let b = sd[j]->List_0;
        seq![BranchView { map_name: b[0]->Sym_0, actions: b.skip(1) }] + compile_branches(sd, j + 1)
    } else {
        compile_branches(sd, j + 1)
    }
}

/// The states of the definitions `defs[i..]`, in order.
pub open spec fn compile_states(defs: Seq<Sexp>, i: int) -> Seq<StateView>
    decreases defs.len() - i,
{
    if i < 0 || i >= defs.len() {
        Seq::empty()
    } else if is_branch_def(defs[i]) {
        let sd = defs[i]->List_0;
        seq![StateView { name: sd[0]->Sym_0, branches: compile_branches(sd, 1) }] + compile_states(
            defs,
            i + 1,
        )
    } else {
        compile_states(defs, i + 1)
    }
}

/// A compiled input method.
pub struct ImView {
    pub lang: Seq<char>,
    pub name: Seq<char>,
    pub title: Seq<char>,
    pub description: Seq<char>,
    pub maps: Seq<(Seq<char>, Map<Seq<u8>, Sexp>)>,
    pub states: Seq<StateView>,
}

pub open spec fn empty_im() -> ImView {
    ImView {
        lang: Seq::empty(),
        name: Seq::empty(),
        title: Seq::empty(),
        description: Seq::empty(),
        maps: Seq::empty(),
        states: Seq::empty(),
    }
}

/// What one top-level form of a document contributes.
pub open spec fn apply_form(im: ImView, f: Sexp) -> ImView {
    if f is List && f->List_0.len() > 0 && f->List_0[0] is Sym {
        let sec = f->List_0;
        let head = sec[0]->Sym_0;
        if head == "input-method"@ {
            let im1 = if sec.len() > 1 && sec[1] is Sym {
                ImView { lang: sec[1]->Sym_0, ..im }
            } else {
                im
            };
            if sec.len() > 2 && sec[2] is Sym {
                ImView { name: sec[2]->Sym_0, ..im1 }
            } else {
                im1
            }
        } else if head == "description"@ {
            if sec.len() > 1 && sec[1] is List {
                let d = sec[1]->List_0;
                if d.len() > 1 && d[1] is Str {
                    ImView { description: d[1]->Str_0, ..im }
                } else {
                    im
                }
            } else if sec.len() > 1 && sec[1] is Str {
                ImView { description: sec[1]->Str_0, ..im }
            } else {
                im
            }
        } else if head == "title"@ {
            if sec.len() > 1 && sec[1] is Str {
                ImView { title: sec[1]->Str_0, ..im }
            } else {
                im
            }
        } else if head == "map"@ {
            ImView { maps: im.maps + compile_maps(sec, 1), ..im }
        } else if head == "state"@ {
            ImView { states: im.states + compile_states(sec, 1), ..im }
        } else {
            im
        }
    } else {
        im
    }
}

/// The input method that the forms `forms[..n]` describe.
pub open spec fn load_forms(forms: Seq<Sexp>, n: int) -> ImView
    decreases n,
{
    if n <= 0 || n > forms.len() {
        empty_im()
    } else {
        apply_form(load_forms(forms, n - 1), forms[n - 1])
    }
}

/// The input method that a parsed document describes.
pub open spec fn load(doc: Sexp) -> ImView {
    match doc {
        Sexp::List(forms) => load_forms(forms, forms.len() as int),
        _ => empty_im(),
    }
}

} // verus!

verus! {

/// Appends the decimal digits of `n`.
fn push_decimal(out: &mut Vec<u8>, n: u64)
    ensures
        final(out)@ == old(out)@ + nat_bytes(n as nat),
    decreases n,
{
    if n >= 10 {
        push_decimal(out, n / 10);
    }
    out.push((48 + n % 10) as u8);
    assert(final(out)@ =~= old(out)@ + nat_bytes(n as nat));
}

/// Appends the key bytes of a keyseq form (see `keyseq`).
fn push_keyseq(e: &Element, out: &mut Vec<u8>)
    ensures
        final(out)@ == old(out)@ + keyseq(e@),
    decreases e,
{
    match e {
        Element::Str(s) => {
            assert(e@ == Sexp::Str(s@));
            let cs = chars_of(s.as_str());
            push_utf8_run(out, cs.as_slice(), 0, cs.len());
            assert(cs@.subrange(0, cs@.len() as int) =~= s@);
        },
        Element::Symbol(s) => {
            assert(e@ == Sexp::Sym(s@));
            let cs = chars_of(s.as_str());
            push_utf8_run(out, cs.as_slice(), 0, cs.len());
            assert(cs@.subrange(0, cs@.len() as int) =~= s@);
        },
        Element::Int(i) => {
            assert(e@ == Sexp::Int(*i));
            if *i < 0 {
                out.push(45u8);
                let m = (-(*i as i128)) as u64;
                push_decimal(out, m);
                assert(final(out)@ =~= old(out)@ + int_bytes(*i as int));
            } else {
                push_decimal(out, *i as u64);
            }
        },
        Element::List(list) => {
            proof {
                lemma_list_view(*e);
            }
            let ghost l = views(list@);
            let mut i: usize = 0;
            assert(old(out)@ + keyseq_items(l, 0) =~= out@ + keyseq_items(l, 0));
            while i < list.len()
                invariant
                    i <= list@.len(),
                    l == views(list@),
                    e@ == Sexp::List(l),
                    *e == Element::List(*list),
                    old(out)@ + keyseq_items(l, 0) == out@ + keyseq_items(l, i as int),
                decreases list@.len() - i,
            {
                let ghost prev = out@;
                push_keyseq(&list[i], out);
                assert(prev + keyseq_items(l, i as int) =~= out@ + keyseq_items(l, i + 1));
                i = i + 1;
            }
            assert(out@ + keyseq_items(l, i as int) =~= out@);
        },
    }
}

/// The key bytes of a keyseq form (see `keyseq`).
pub fn element_to_keyseq(e: &Element) -> (r: Vec<u8>)
    ensures
        r@ == keyseq(e@),
{
    let mut out: Vec<u8> = Vec::new();
    push_keyseq(e, &mut out);
    assert(out@ =~= keyseq(e@));
    out
}

} // verus!

verus! {

/// A branch of a state: a map to match against and the actions that follow a match.
pub struct Branch {
    pub map_name: String,
    pub actions: Vec<Element>,
}

/// A named state and its branches, in declaration order.
pub struct State {
    pub name: String,
    pub branches: Vec<Branch>,
}

/// A compiled map under its name.
pub struct NamedMap {
    pub name: String,
    pub table: KeySeqMap,
}

/// A compiled input method: its metadata, maps and states.
pub struct ImInfo {
    pub lang: String,
    pub name: String,
    pub title: String,
    pub description: String,
    pub maps: Vec<NamedMap>,
    pub states: Vec<State>,
}

impl Branch {
    pub open spec fn view(&self) -> BranchView {
        BranchView { map_name: self.map_name@, actions: views(self.actions@) }
    }
}

impl State {
    pub open spec fn view(&self) -> StateView {
        StateView {
            name: self.name@,
            branches: Seq::new(self.branches@.len(), |i: int| self.branches@[i]@),
        }
    }
}

pub open spec fn maps_view(maps: Seq<NamedMap>) -> Seq<(Seq<char>, Map<Seq<u8>, Sexp>)> {
    Seq::new(maps.len(), |i: int| (maps[i].name@, maps[i].table@))
}

pub open spec fn maps_wf(maps: Seq<NamedMap>) -> bool {
    forall|i: int| 0 <= i < maps.len() ==> (#[trigger] maps[i]).table.wf()
}

pub open spec fn states_view(states: Seq<State>) -> Seq<StateView> {
    Seq::new(states.len(), |i: int| states[i]@)
}

impl ImInfo {
    pub open spec fn view(&self) -> ImView {
        ImView {
            lang: self.lang@,
            name: self.name@,
            title: self.title@,
            description: self.description@,
            maps: maps_view(self.maps@),
            states: states_view(self.states@),
        }
    }

    pub open spec fn wf(&self) -> bool {
        maps_wf(self.maps@)
    }
}

/// The rules of a map definition `md`, from `md[j]` on.
fn collect_rules(md: &Vec<Element>, j: usize) -> (r: Vec<(Vec<u8>, Element)>)
    requires
        j <= md@.len(),
    ensures
        rules_view(r@) == map_rules(views(md@), j as int),
{
    let ghost d = views(md@);
    let mut out: Vec<(Vec<u8>, Element)> = Vec::new();
    let mut k = j;
    assert(rules_view(out@) + map_rules(d, j as int) =~= map_rules(d, j as int));
    while k < md.len()
        invariant
            j <= k <= md@.len(),
            d == views(md@),
            rules_view(out@) + map_rules(d, k as int) == map_rules(d, j as int),
        decreases md@.len() - k,
    {
        let ghost prev = rules_view(out@);
        if let Element::List(rule_parts) = &md[k] {
            proof {
                lemma_list_view(md@[k as int]);
            }
            if rule_parts.len() > 0 {
                let key = element_to_keyseq(&rule_parts[0]);
                let actions = Element::List(copy_elements(rule_parts, 1));
                proof {
                    lemma_list_view(actions);
                }
                out.push((key, actions));
                assert(rules_view(out@) =~= prev.push((key@, actions@)));
                assert(rules_view(out@) + map_rules(d, k + 1) =~= prev + map_rules(d, k as int));
            }
        }
        k = k + 1;
    }
    assert(map_rules(d, k as int) =~= Seq::<(Seq<u8>, Sexp)>::empty());
    assert(rules_view(out@) =~= rules_view(out@) + map_rules(d, k as int));
    out
}

/// Compiles the map definitions `defs[from..]` (see `compile_maps`).
pub fn parse_maps(defs: &Vec<Element>, from: usize) -> (r: Vec<NamedMap>)
    requires
        from <= defs@.len(),
    ensures
        maps_view(r@) == compile_maps(views(defs@), from as int),
        maps_wf(r@),
{
    let ghost d = views(defs@);
    let mut out: Vec<NamedMap> = Vec::new();
    let mut i = from;
    assert(maps_view(out@) + compile_maps(d, from as int) =~= compile_maps(d, from as int));
    while i < defs.len()
        invariant
            from <= i <= defs@.len(),
            d == views(defs@),
            maps_view(out@) + compile_maps(d, i as int) == compile_maps(d, from as int),
            maps_wf(out@),
        decreases defs@.len() - i,
    {
        let ghost prev = maps_view(out@);
        if let Element::List(map_def) = &defs[i] {
            proof {
                lemma_list_view(defs@[i as int]);
            }
            if map_def.len() > 0 {
                if let Element::Symbol(map_name) = &map_def[0] {
                    let rules = collect_rules(map_def, 1);
                    if rules.len() > 0 {
                        let table = KeySeqMap::from_rules(rules);
                        let nm = NamedMap { name: map_name.clone(), table };
                        out.push(nm);
                        assert(maps_view(out@) =~= prev.push((map_name@, table@)));
                        assert(maps_view(out@) + compile_maps(d, i + 1) =~= prev + compile_maps(d, i as int));
                    }
                }
            }
        }
        i = i + 1;
    }
    assert(maps_view(out@) + compile_maps(d, i as int) =~= maps_view(out@));
    out
}

/// The branches of a state definition `sd`, from `sd[j]` on.
fn collect_branches(sd: &Vec<Element>, j: usize) -> (r: Vec<Branch>)
    requires
        j <= sd@.len(),
    ensures
        Seq::new(r@.len(), |i: int| r@[i]@) == compile_branches(views(sd@), j as int),
{
    let ghost d = views(sd@);
    let mut out: Vec<Branch> = Vec::new();
    let mut k = j;
    assert(Seq::new(out@.len(), |i: int| out@[i]@) + compile_branches(d, j as int) =~= compile_branches(d, j as int));
    while k < sd.len()
        invariant
            j <= k <= sd@.len(),
            d == views(sd@),
            Seq::new(out@.len(), |i: int| out@[i]@) + compile_branches(d, k as int) == compile_branches(d, j as int),
        decreases sd@.len() - k,
    {
        let ghost prev = Seq::new(out@.len(), |i: int| out@[i]@);
        if let Element::List(b) = &sd[k] {
            proof {
                lemma_list_view(sd@[k as int]);
            }
            if b.len() > 0 {
                if let Element::Symbol(map_name) = &b[0] {
                    let actions = copy_elements(b, 1);
                    let br = Branch { map_name: map_name.clone(), actions };
                    out.push(br);
                    assert(Seq::new(out@.len(), |i: int| out@[i]@) =~= prev.push(br@));
                    assert(Seq::new(out@.len(), |i: int| out@[i]@) + compile_branches(d, k + 1) =~= prev + compile_branches(d, k as int));
                }
            }
        }
        k = k + 1;
    }
    assert(Seq::new(out@.len(), |i: int| out@[i]@) + compile_branches(d, k as int) =~= Seq::new(out@.len(), |i: int| out@[i]@));
    out
}

/// Compiles the state definitions `defs[from..]` (see `compile_states`).
pub fn parse_states(defs: &Vec<Element>, from: usize) -> (r: Vec<State>)
    requires
        from <= defs@.len(),
    ensures
        states_view(r@) == compile_states(views(defs@), from as int),
{
    let ghost d = views(defs@);
    let mut out: Vec<State> = Vec::new();
    let mut i = from;
    assert(states_view(out@) + compile_states(d, from as int) =~= compile_states(d, from as int));
    while i < defs.len()
        invariant
            from <= i <= defs@.len(),
            d == views(defs@),
            states_view(out@) + compile_states(d, i as int) == compile_states(d, from as int),
        decreases defs@.len() - i,
    {
        let ghost prev = states_view(out@);
        if let Element::List(state_def) = &defs[i] {
            proof {
                lemma_list_view(defs@[i as int]);
            }
            if state_def.len() > 0 {
                if let Element::Symbol(state_name) = &state_def[0] {
                    let branches = collect_branches(state_def, 1);
                    let st = State { name: state_name.clone(), branches };
                    out.push(st);
                    assert(states_view(out@) =~= prev.push(st@));
                    assert(states_view(out@) + compile_states(d, i + 1) =~= prev + compile_states(d, i as int));
                }
            }
        }
        i = i + 1;
    }
    assert(states_view(out@) + compile_states(d, i as int) =~= states_view(out@));
    out
}

} // verus!

verus! {

impl ImInfo {
    /// An input method with no metadata, maps or states.
    fn empty() -> (r: ImInfo)
        ensures
            r@ == empty_im(),
            r.wf(),
    {
        let r = ImInfo {
            lang: String::new(),
            name: String::new(),
            title: String::new(),
            description: String::new(),
            maps: Vec::new(),
            states: Vec::new(),
        };
        assert(maps_view(r.maps@) =~= Seq::<(Seq<char>, Map<Seq<u8>, Sexp>)>::empty());
        assert(states_view(r.states@) =~= Seq::<StateView>::empty());
        r
    }

    /// Takes in one top-level form (see `apply_form`).
    fn apply_form(&mut self, element: &Element)
        requires
            old(self).wf(),
        ensures
            final(self)@ == apply_form(old(self)@, element@),
            final(self).wf(),
    {
        if let Element::List(section) = element {
            proof {
                lemma_list_view(*element);
            }
            if section.len() == 0 {
                return;
            }
            let sym = match &section[0] {
                Element::Symbol(sym) => sym,
                _ => {
                    return;
                },
            };
            if text_is(sym.as_str(), "input-method") {
                if section.len() > 1 {
                    if let Element::Symbol(l) = &section[1] {
                        self.lang = l.clone();
                    }
                }
                if section.len() > 2 {
                    if let Element::Symbol(n) = &section[2] {
                        self.name = n.clone();
                    }
                }
            } else if text_is(sym.as_str(), "description") {
                if section.len() > 1 {
                    match &section[1] {
                        Element::List(desc_list) => {
                            proof {
                                lemma_list_view(section@[1]);
                            }
                            if desc_list.len() > 1 {
                                if let Element::Str(s) = &desc_list[1] {
                                    self.description = s.clone();
                                }
                            }
                        },
                        Element::Str(s) => {
                            self.description = s.clone();
                        },
                        _ => {},
                    }
                }
            } else if text_is(sym.as_str(), "title") {
                if section.len() > 1 {
                    if let Element::Str(t) = &section[1] {
                        self.title = t.clone();
                    }
                }
            } else if text_is(sym.as_str(), "map") {
                let mut more = parse_maps(section, 1);
                let ghost before = self.maps@;
                let ghost added = more@;
                self.maps.append(&mut more);
                assert(maps_view(self.maps@) =~= maps_view(before) + maps_view(added));
                assert(forall|i: int| 0 <= i < self.maps@.len() ==> #[trigger] self.maps@[i] == (
                    if i < before.len() { before[i] } else { added[i - before.len()] }));
            } else if text_is(sym.as_str(), "state") {
                let mut more = parse_states(section, 1);
                let ghost before = self.states@;
                let ghost added = more@;
                self.states.append(&mut more);
                assert(states_view(self.states@) =~= states_view(before) + states_view(added));
            }
        }
    }
}

/// Compiles a parsed document (see `load`).
pub fn load_im_info(parsed_mim: Element) -> (r: ImInfo)
    ensures
        r@ == load(parsed_mim@),
        r.wf(),
{
    let mut im = ImInfo::empty();
    if let Element::List(root) = &parsed_mim {
        proof {
            lemma_list_view(parsed_mim);
        }
        let ghost forms = views(root@);
        let mut i: usize = 0;
        while i < root.len()
            invariant
                i <= root@.len(),
                forms == views(root@),
                im@ == load_forms(forms, i as int),
                im.wf(),
            decreases root@.len() - i,
        {
            im.apply_form(&root[i]);
            i = i + 1;
        }
    }
    im
}

} // verus!
