use vstd::prelude::*;

verus! {

/// The mathematical value of a parsed form.
pub enum Sexp {
    List(Seq<Sexp>),
    Str(Seq<char>),
    Int(i64),
    Sym(Seq<char>),
}

/// A node of a parsed document: a list, a string, an integer or a symbol.
#[derive(Debug, PartialEq)]
pub enum Element {
    List(Vec<Element>),
    Str(String),
    Int(i64),
    Symbol(String),
}

impl Element {
    pub open spec fn view(&self) -> Sexp
        decreases self,
    {
        match self {
            Element::List(v) => Sexp::List(
                Seq::new(v.len() as nat, |i: int| if 0 <= i < v.len() { v[i].view() } else { Sexp::Int(0) }),
            ),
            Element::Str(s) => Sexp::Str(s@),
            Element::Int(n) => Sexp::Int(*n),
            Element::Symbol(s) => Sexp::Sym(s@),
        }
    }

    /// A copy of the whole tree.
    pub fn copy_tree(&self) -> (r: Element)
        ensures
            r@ == self@,
        decreases self,
    {
        match self {
            Element::List(v) => {
                let c = copy_elements(v, 0);
                assert(views(v@).skip(0) =~= views(v@));
                let r = Element::List(c);
                proof {
                    lemma_list_view(r);
                    lemma_list_view(*self);
                }
                r
            },
            Element::Str(s) => Element::Str(s.clone()),
            Element::Int(n) => Element::Int(*n),
            Element::Symbol(s) => Element::Symbol(s.clone()),
        }
    }
}

pub proof fn lemma_list_view(e: Element)
    requires
        e is List,
    ensures
        e@ == Sexp::List(views(e->List_0@)),
{
    assert(e@->List_0 =~= views(e->List_0@));
}

impl Clone for Element {
    /// A copy of the whole tree.
    fn clone(&self) -> (r: Element)
        ensures
            r@ == self@,
    {
        self.copy_tree()
    }
}

/// The views of a vector of elements.
pub open spec fn views(v: Seq<Element>) -> Seq<Sexp> {
    Seq::new(v.len(), |i: int| v[i]@)
}

/// Copies of the elements `v[from..]`.
pub fn copy_elements(v: &Vec<Element>, from: usize) -> (r: Vec<Element>)
    requires
        from <= v@.len(),
    ensures
        views(r@) == views(v@).skip(from as int),
    decreases v,
{
    let mut out: Vec<Element> = Vec::new();
    let mut i = from;
    while i < v.len()
        invariant
            from <= i <= v@.len(),
            views(out@) == views(v@).subrange(from as int, i as int),
            out@.len() == i - from,
        decreases v@.len() - i,
    {
        proof {
            assert(decreases_to!(v => v[i as int]));
        }
        let e = v[i].copy_tree();
        let ghost prev = out@;
        out.push(e);
        assert(forall|k: int| 0 <= k < prev.len() ==> views(out@)[k] == #[trigger] views(prev)[k]);
        assert(views(out@) =~= views(v@).subrange(from as int, i + 1));
        i = i + 1;
    }
    assert(views(v@).subrange(from as int, i as int) =~= views(v@).skip(from as int));
    out
}

} // verus!
