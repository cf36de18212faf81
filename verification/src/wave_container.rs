//! References to the signals of a waveform, by hierarchical name.

use vstd::prelude::*;

use crate::text::{chars_of, string_from_chars};

verus! {

/// `s` split at every `.`: always at least one part, empty parts included.
pub open spec fn split_dots(s: Seq<char>) -> Seq<Seq<char>>
    decreases s.len(),
{
    if s.len() == 0 {
        seq![Seq::empty()]
    } else {
        let r = split_dots(s.drop_last());
        if s.last() == '.' {
            r.push(Seq::empty())
        } else {
            r.update(r.len() - 1, r.last().push(s.last()))
        }
    }
}

/// `parts` joined with `.` between consecutive parts.
pub open spec fn join_dots(parts: Seq<Seq<char>>) -> Seq<char>
    decreases parts.len(),
{
    if parts.len() == 0 {
        Seq::empty()
    } else if parts.len() == 1 {
        parts[0]
    } else {
        join_dots(parts.drop_last()) + seq!['.'] + parts.last()
    }
}

pub proof fn lemma_split_nonempty(s: Seq<char>)
    ensures
        split_dots(s).len() >= 1,
    decreases s.len(),
{
    if s.len() > 0 {
        lemma_split_nonempty(s.drop_last());
    }
}

/// Splitting a name at its dots and joining the parts again gives the name back.
pub proof fn lemma_join_split(s: Seq<char>)
    ensures
        join_dots(split_dots(s)) == s,
    decreases s.len(),
{
    if s.len() > 0 {
        let d = s.drop_last();
        let r = split_dots(d);
        lemma_join_split(d);
        lemma_split_nonempty(d);
        if s.last() == '.' {
            let q = r.push(Seq::<char>::empty());
            assert(q.drop_last() =~= r);
            assert(join_dots(q) =~= s);
        } else {
            let q = r.update(r.len() - 1, r.last().push(s.last()));
            if r.len() == 1 {
                assert(join_dots(q) =~= s);
            } else {
                assert(q.drop_last() =~= r.drop_last());
                assert(join_dots(r) == join_dots(r.drop_last()) + seq!['.'] + r.last());
                assert(q.last() == r.last().push(s.last()));
                assert(join_dots(q) == join_dots(q.drop_last()) + seq!['.'] + q.last());
                let a = join_dots(r.drop_last()) + seq!['.'];
                assert(a + r.last().push(s.last()) =~= (a + r.last()).push(s.last()));
                assert(s =~= d.push(s.last()));
                assert(join_dots(q) =~= s);
            }
        }
    }
}

/// A signal, named by the scopes above it and its own name.
#[derive(Debug, PartialEq, Eq, Hash)]
pub struct VariableRef {
    pub path: Vec<String>,
    pub name: String,
}

/// A signal reference as names: its scope path and its own name.
pub struct VariableRefView {
    pub path: Seq<Seq<char>>,
    pub name: Seq<char>,
}

impl View for VariableRef {
    type V = VariableRefView;

    open spec fn view(&self) -> VariableRefView {
        VariableRefView { path: self.path@.map_values(|p: String| p@), name: self.name@ }
    }
}

/// The reference that a dotted hierarchy string names: the last part is the
/// signal, the others its scopes.
pub open spec fn from_hierarchy_spec(s: Seq<char>) -> VariableRefView {
    let parts = split_dots(s);
    VariableRefView { path: parts.drop_last(), name: parts.last() }
}

/// The dotted hierarchy string of a reference.
pub open spec fn full_path_spec(v: VariableRefView) -> Seq<char> {
    join_dots(v.path.push(v.name))
}

/// Reading a hierarchy string and writing the reference's full path gives the
/// string back.
pub proof fn law_full_path_round_trip(s: Seq<char>)
    ensures
        full_path_spec(from_hierarchy_spec(s)) == s,
{
    lemma_split_nonempty(s);
    lemma_join_split(s);
    let parts = split_dots(s);
    assert(parts.drop_last().push(parts.last()) =~= parts);
}

impl Clone for VariableRef {
    fn clone(&self) -> (r: Self)
        ensures
            r@ == self@,
    {
        let path = self.path.clone();
        let name = self.name.clone();
        assert(path@ =~= self.path@);
        VariableRef { path, name }
    }
}

impl VariableRef {
    pub fn new(path: Vec<String>, name: String) -> (r: Self)
        ensures
            r.path == path,
            r.name == name,
    {
        VariableRef { path, name }
    }

    /// The reference named by a dotted hierarchy string such as `tb.spi.sclk`.
    pub fn from_hierarchy_string(s: &str) -> (r: Self)
        ensures
            r@ == from_hierarchy_spec(s@),
    {
        let cs = chars_of(s);
        let mut parts: Vec<String> = Vec::new();
        let mut cur: Vec<char> = Vec::new();
        let mut i: usize = 0;
        proof {
            assert(cs@.take(0) =~= Seq::<char>::empty());
            assert(parts@.map_values(|p: String| p@).push(cur@) =~= split_dots(Seq::<char>::empty()));
        }
        while i < cs.len()
            invariant
                cs@ == s@,
                i <= cs@.len(),
                parts@.map_values(|p: String| p@).push(cur@) == split_dots(cs@.take(i as int)),
            decreases cs@.len() - i,
        {
            let c = cs[i];
            let ghost pv = parts@.map_values(|p: String| p@);
            proof {
                assert(cs@.take(i + 1).drop_last() =~= cs@.take(i as int));
                assert(cs@.take(i + 1).last() == c);
            }
            if c == '.' {
                let part = string_from_chars(&cur);
                parts.push(part);
                cur = Vec::new();
                proof {
                    assert(parts@.map_values(|p: String| p@) =~= pv.push(part@));
                    assert(parts@.map_values(|p: String| p@).push(cur@) =~= pv.push(part@).push(Seq::<char>::empty()));
                }
            } else {
                let ghost old_cur = cur@;
                cur.push(c);
                proof {
                    assert(pv.push(cur@) =~= pv.push(old_cur).update(pv.len() as int, old_cur.push(c)));
                }
            }
            i = i + 1;
        }
        proof {
            assert(cs@.take(cs@.len() as int) =~= cs@);
        }
        let name = string_from_chars(&cur);
        let r = VariableRef { path: parts, name };
        proof {
            let whole = split_dots(s@);
            assert(r@.path =~= whole.drop_last());
        }
        r
    }

    /// The dotted hierarchy string of this reference, e.g. `tb.spi.sclk`.
    pub fn full_path_string(&self) -> (s: String)
        ensures
            s@ == full_path_spec(self@),
    {
        let ghost pv = self@.path;
        let mut out: Vec<char> = Vec::new();
        let mut i: usize = 0;
        while i < self.path.len()
            invariant
                pv == self@.path,
                pv.len() == self.path@.len(),
                i <= pv.len(),
                out@ == (if i == 0 {
                    Seq::<char>::empty()
                } else {
                    join_dots(pv.take(i as int)) + seq!['.']
                }),
            decreases pv.len() - i,
        {
            let part = chars_of(self.path[i].as_str());
            let ghost before = out@;
            let mut j: usize = 0;
            while j < part.len()
                invariant
                    j <= part@.len(),
                    out@ == before + part@.take(j as int),
                decreases part@.len() - j,
            {
                out.push(part[j]);
                j = j + 1;
                assert(out@ =~= before + part@.take(j as int));
            }
            out.push('.');
            proof {
                assert(part@.take(part@.len() as int) =~= part@);
                assert(pv[i as int] == part@);
                assert(pv.take(i + 1).drop_last() =~= pv.take(i as int));
                if i == 0 {
                    assert(join_dots(pv.take(1)) == pv[0]);
                    assert(out@ =~= join_dots(pv.take(1)) + seq!['.']);
                } else {
                    assert(out@ =~= join_dots(pv.take(i + 1)) + seq!['.']);
                }
            }
            i = i + 1;
        }
        let name = chars_of(self.name.as_str());
        let ghost before = out@;
        let mut j: usize = 0;
        while j < name.len()
            invariant
                j <= name@.len(),
                out@ == before + name@.take(j as int),
            decreases name@.len() - j,
        {
            out.push(name[j]);
            j = j + 1;
            assert(out@ =~= before + name@.take(j as int));
        }
        proof {
            assert(name@.take(name@.len() as int) =~= name@);
            assert(pv.take(pv.len() as int) =~= pv);
            let whole = pv.push(self@.name);
            assert(whole.drop_last() =~= pv);
            if pv.len() == 0 {
                assert(out@ =~= full_path_spec(self@));
            } else {
                assert(out@ =~= full_path_spec(self@));
            }
        }
        string_from_chars(&out)
    }

    /// Whether both references name the same signal.
    pub fn same_as(&self, other: &VariableRef) -> (r: bool)
        ensures
            r == (self@ == other@),
    {
        if self.name != other.name {
            return false;
        }
        if self.path.len() != other.path.len() {
            proof {
                assert(self@.path.len() != other@.path.len());
            }
            return false;
        }
        let mut i: usize = 0;
        while i < self.path.len()
            invariant
                self.path@.len() == other.path@.len(),
                i <= self.path@.len(),
                forall|k: int| 0 <= k < i ==> #[trigger] self@.path[k] == other@.path[k],
            decreases self.path@.len() - i,
        {
            if self.path[i] != other.path[i] {
                proof {
                    assert(self@.path[i as int] != other@.path[i as int]);
                }
                return false;
            }
            i = i + 1;
        }
        assert(self@.path =~= other@.path);
        true
    }
}

} // verus!
