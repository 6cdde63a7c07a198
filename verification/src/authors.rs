//! Author identities and the shared result set.
//!
//! An identity is the (name, email) pair recorded on a commit, kept exactly
//! as recorded: no case folding, no trimming. Two identities are the same
//! only when both fields compare equal character for character. The result
//! set holds every distinct identity seen across the whole run; its final
//! form is sorted ascending by the pair (name, email) under plain
//! lexicographic comparison, and printed one `name <email>` line each.

use vstd::prelude::*;
use vstd::string::StringExecFns;

verus! {

/// The author recorded on one commit: a name and an email, exactly as the
/// commit stores them.
pub struct AuthorIdentity {
    pub name: String,
    pub email: String,
}

/// The mathematical value of an identity: its two character sequences.
pub open spec fn ident_view(a: AuthorIdentity) -> (Seq<char>, Seq<char>) {
    (a.name@, a.email@)
}

/// The views of a run of identities.
pub open spec fn idents_view(v: Seq<AuthorIdentity>) -> Seq<(Seq<char>, Seq<char>)> {
    v.map_values(|a: AuthorIdentity| ident_view(a))
}

impl AuthorIdentity {
    /// A copy holding the same two fields.
    pub fn duplicate(&self) -> (r: AuthorIdentity)
        ensures
            r == *self,
    {
        AuthorIdentity { name: self.name.clone(), email: self.email.clone() }
    }
}

/// Lexicographic order on character sequences by scalar value, a proper
/// prefix before every extension of it.
pub open spec fn lex_le_chars(a: Seq<char>, b: Seq<char>) -> bool
    decreases a.len(),
{
    if a.len() == 0 {
        true
    } else if b.len() == 0 {
        false
    } else if (a[0] as int) < (b[0] as int) {
        true
    } else if a[0] == b[0] {
        lex_le_chars(a.skip(1), b.skip(1))
    } else {
        false
    }
}

/// The output order of identities: by name, ties broken by email.
pub open spec fn ident_le(x: (Seq<char>, Seq<char>), y: (Seq<char>, Seq<char>)) -> bool {
    if x.0 == y.0 {
        lex_le_chars(x.1, y.1)
    } else {
        lex_le_chars(x.0, y.0)
    }
}

/// Any two character sequences compare one way or the other.
pub proof fn lemma_lex_le_total(a: Seq<char>, b: Seq<char>)
    ensures
        lex_le_chars(a, b) || lex_le_chars(b, a),
    decreases a.len(),
{
    if a.len() == 0 || b.len() == 0 {
    } else if a[0] == b[0] {
        lemma_lex_le_total(a.skip(1), b.skip(1));
    } else {
        assert((a[0] as int) != (b[0] as int));
    }
}

/// Two character sequences below one another are equal.
pub proof fn lemma_lex_le_antisym(a: Seq<char>, b: Seq<char>)
    requires
        lex_le_chars(a, b),
        lex_le_chars(b, a),
    ensures
        a == b,
    decreases a.len(),
{
    if a.len() == 0 {
        assert(b.len() == 0);
        assert(a =~= b);
    } else {
        assert(a[0] == b[0]);
        lemma_lex_le_antisym(a.skip(1), b.skip(1));
        assert(a.len() == b.len());
        assert forall|i: int| 0 <= i < a.len() implies a[i] == b[i] by {
            if i >= 1 {
                assert(a[i] == a.skip(1)[i - 1]);
                assert(b[i] == b.skip(1)[i - 1]);
            }
        }
        assert(a =~= b);
    }
}

/// The character order is transitive.
pub proof fn lemma_lex_le_trans(a: Seq<char>, b: Seq<char>, c: Seq<char>)
    requires
        lex_le_chars(a, b),
        lex_le_chars(b, c),
    ensures
        lex_le_chars(a, c),
    decreases a.len(),
{
    if a.len() == 0 || b.len() == 0 || c.len() == 0 {
    } else if a[0] == b[0] && b[0] == c[0] {
        lemma_lex_le_trans(a.skip(1), b.skip(1), c.skip(1));
    }
}

/// Any two identities compare one way or the other.
pub proof fn lemma_ident_le_total(x: (Seq<char>, Seq<char>), y: (Seq<char>, Seq<char>))
    ensures
        ident_le(x, y) || ident_le(y, x),
{
    lemma_lex_le_total(x.0, y.0);
    lemma_lex_le_total(x.1, y.1);
}

/// The identity order is transitive.
pub proof fn lemma_ident_le_trans(
    x: (Seq<char>, Seq<char>),
    y: (Seq<char>, Seq<char>),
    z: (Seq<char>, Seq<char>),
)
    requires
        ident_le(x, y),
        ident_le(y, z),
    ensures
        ident_le(x, z),
{
    if x.0 == y.0 && y.0 == z.0 {
        lemma_lex_le_trans(x.1, y.1, z.1);
    } else if x.0 != y.0 && y.0 != z.0 {
        lemma_lex_le_trans(x.0, y.0, z.0);
        if x.0 == z.0 {
            lemma_lex_le_antisym(x.0, y.0);
        }
    }
}

/// Compares two strings in the lexicographic character order.
fn lex_le(a: &str, b: &str) -> (r: bool)
    ensures
        r == lex_le_chars(a@, b@),
{
    let al = a.unicode_len();
    let bl = b.unicode_len();
    proof {
        assert(a@.skip(0) =~= a@);
        assert(b@.skip(0) =~= b@);
    }
    let mut i: usize = 0;
    while i < al && i < bl
        invariant
            0 <= i <= al,
            0 <= i <= bl,
            al == a@.len(),
            bl == b@.len(),
            lex_le_chars(a@, b@) == lex_le_chars(a@.skip(i as int), b@.skip(i as int)),
        decreases al - i,
    {
        let ca = a.get_char(i);
        let cb = b.get_char(i);
        let ua = ca as u32;
        let ub = cb as u32;
        proof {
            assert(a@.skip(i as int)[0] == a@[i as int]);
            assert(b@.skip(i as int)[0] == b@[i as int]);
        }
        if ua < ub {
            return true;
        }
        if ua > ub {
            assert(a@[i as int] != b@[i as int]);
            return false;
        }
        proof {
            assert(ca == cb);
            assert(a@.skip(i as int).skip(1) =~= a@.skip(i + 1));
            assert(b@.skip(i as int).skip(1) =~= b@.skip(i + 1));
        }
        i = i + 1;
    }
    if i == al {
        assert(a@.skip(i as int).len() == 0);
        true
    } else {
        assert(b@.skip(i as int).len() == 0);
        assert(a@.skip(i as int).len() > 0);
        false
    }
}

/// Compares two identities in the output order.
fn ident_le_exec(x: &AuthorIdentity, y: &AuthorIdentity) -> (r: bool)
    ensures
        r == ident_le(ident_view(*x), ident_view(*y)),
{
    if x.name == y.name {
        lex_le(x.email.as_str(), y.email.as_str())
    } else {
        lex_le(x.name.as_str(), y.name.as_str())
    }
}

/// Ascending under the output order.
pub open spec fn sorted_idents(s: Seq<(Seq<char>, Seq<char>)>) -> bool {
    forall|i: int, j: int| 0 <= i < j < s.len() ==> ident_le(#[trigger] s[i], #[trigger] s[j])
}

proof fn lemma_seq_insert_to_set<A>(s: Seq<A>, j: int, a: A)
    requires
        0 <= j <= s.len(),
    ensures
        s.insert(j, a).to_set() == s.to_set().insert(a),
{
    let t = s.insert(j, a);
    s.insert_ensures(j, a);
    assert forall|x: A| t.to_set().contains(x) implies s.to_set().insert(a).contains(x) by {
        let k = choose|k: int| 0 <= k < t.len() && t[k] == x;
        if k < j {
            assert(s[k] == x);
        } else if k > j {
            assert(s[k - 1] == x);
        }
    }
    assert forall|x: A| s.to_set().insert(a).contains(x) implies t.to_set().contains(x) by {
        if x == a {
            assert(t[j] == x);
        } else {
            let k = choose|k: int| 0 <= k < s.len() && s[k] == x;
            if k < j {
                assert(t[k] == x);
            } else {
                assert(t[k + 1] == x);
            }
        }
    }
    assert(t.to_set() =~= s.to_set().insert(a));
}

/// The set of distinct identities gathered over one run. Only the single
/// consumer of the pipeline writes it; a run's final output is its sorted
/// listing.
pub struct ResultSet {
    items: Vec<AuthorIdentity>,
}

impl ResultSet {
    /// The set of identities held.
    pub closed spec fn view(&self) -> Set<(Seq<char>, Seq<char>)> {
        idents_view(self.items@).to_set()
    }

    /// The backing run holds each identity once.
    pub closed spec fn wf(&self) -> bool {
        idents_view(self.items@).no_duplicates()
    }

    /// The empty set.
    pub fn new() -> (r: ResultSet)
        ensures
            r@ == Set::<(Seq<char>, Seq<char>)>::empty(),
            r.wf(),
    {
        let r = ResultSet { items: Vec::new() };
        proof {
            assert(idents_view(r.items@) =~= Seq::<(Seq<char>, Seq<char>)>::empty());
            assert(r@ =~= Set::<(Seq<char>, Seq<char>)>::empty());
        }
        r
    }

    /// Whether `a` is already held.
    pub fn contains_ident(&self, a: &AuthorIdentity) -> (r: bool)
        ensures
            r == self@.contains(ident_view(*a)),
    {
        let n = self.items.len();
        let mut i: usize = 0;
        while i < n
            invariant
                0 <= i <= n,
                n == self.items@.len(),
                forall|j: int| 0 <= j < i ==> idents_view(self.items@)[j] != ident_view(*a),
            decreases n - i,
        {
            let e = &self.items[i];
            if e.name == a.name && e.email == a.email {
                assert(idents_view(self.items@)[i as int] == ident_view(*a));
                assert(idents_view(self.items@).contains(ident_view(*a)));
                return true;
            }
            assert(idents_view(self.items@)[i as int] == ident_view(self.items@[i as int]));
            i = i + 1;
        }
        assert(!idents_view(self.items@).contains(ident_view(*a)));
        false
    }

    /// How many distinct identities are held.
    pub fn len(&self) -> (r: usize)
        requires
            self.wf(),
        ensures
            r == self@.len(),
    {
        proof {
            idents_view(self.items@).unique_seq_to_set();
        }
        self.items.len()
    }

    /// Adds `a` to the set: afterwards the set holds exactly what it held
    /// before plus `a`, never a second copy of it.
    pub fn insert(&mut self, a: AuthorIdentity)
        requires
            old(self).wf(),
        ensures
            final(self).wf(),
            final(self)@ == old(self)@.insert(ident_view(a)),
    {
        broadcast use Seq::lemma_push_map_commute;
        broadcast use Seq::lemma_push_to_set_commute;

        if self.contains_ident(&a) {
            proof {
                assert(self@ =~= old(self)@.insert(ident_view(a)));
            }
        } else {
            let ghost pre = self.items@;
            self.items.push(a);
            proof {
                assert(idents_view(pre.push(a)) =~= idents_view(pre).push(ident_view(a)));
                assert(!idents_view(pre).contains(ident_view(a)));
                assert(idents_view(self.items@).no_duplicates());
                assert(self@ =~= old(self)@.insert(ident_view(a)));
            }
        }
    }

    /// Merges one repository's identities in: afterwards the set holds the
    /// union of what it held before and the run handed in, each identity
    /// once.
    pub fn merge(&mut self, authors: &Vec<AuthorIdentity>)
        requires
            old(self).wf(),
        ensures
            final(self).wf(),
            final(self)@ == old(self)@ + idents_view(authors@).to_set(),
    {
        broadcast use Seq::lemma_push_map_commute;
        broadcast use Seq::lemma_push_to_set_commute;

        let n = authors.len();
        let mut i: usize = 0;
        while i < n
            invariant
                0 <= i <= n,
                n == authors@.len(),
                self.wf(),
                self@ == old(self)@ + idents_view(authors@.take(i as int)).to_set(),
            decreases n - i,
        {
            let a = authors[i].duplicate();
            proof {
                assert(authors@.take(i + 1) =~= authors@.take(i as int).push(authors@[i as int]));
                assert(idents_view(authors@.take(i + 1)) =~= idents_view(
                    authors@.take(i as int),
                ).push(ident_view(authors@[i as int])));
            }
            self.insert(a);
            proof {
                broadcast use Seq::lemma_push_to_set_commute;

                assert(idents_view(authors@.take(i + 1)).to_set() =~= idents_view(
                    authors@.take(i as int),
                ).to_set().insert(ident_view(authors@[i as int])));
                assert(self@ =~= old(self)@ + idents_view(authors@.take(i + 1)).to_set());
            }
            i = i + 1;
        }
        proof {
            assert(authors@.take(n as int) =~= authors@);
        }
    }

    /// The identities held, each exactly once, ascending under the output
    /// order: by name, ties broken by email.
    #[verifier::rlimit(50)]
    pub fn sorted(&self) -> (r: Vec<AuthorIdentity>)
        requires
            self.wf(),
        ensures
            sorted_idents(idents_view(r@)),
            idents_view(r@).no_duplicates(),
            idents_view(r@).to_set() == self@,
    {
        let n = self.items.len();
        let mut out: Vec<AuthorIdentity> = Vec::new();
        proof {
            assert(idents_view(Seq::<AuthorIdentity>::empty()) =~= Seq::<(
                Seq<char>,
                Seq<char>,
            )>::empty());
            assert(idents_view(self.items@.take(0)) =~= Seq::<(Seq<char>, Seq<char>)>::empty());
            assert(idents_view(out@).to_set() =~= idents_view(self.items@.take(0)).to_set());
        }
        let mut i: usize = 0;
        while i < n
            invariant
                0 <= i <= n,
                n == self.items@.len(),
                self.wf(),
                sorted_idents(idents_view(out@)),
                idents_view(out@).no_duplicates(),
                idents_view(out@).to_set() == idents_view(self.items@.take(i as int)).to_set(),
            decreases n - i,
        {
            let item = self.items[i].duplicate();
            let ghost item_v = ident_view(item);
            let ghost out_pre = out@;
            let ghost ov = idents_view(out@);
            // The new identity is none of those already placed.
            proof {
                assert(idents_view(self.items@)[i as int] == item_v);
                if ov.contains(item_v) {
                    assert(idents_view(self.items@.take(i as int)).to_set().contains(item_v));
                    let k = choose|k: int|
                        0 <= k < i && idents_view(self.items@.take(i as int))[k] == item_v;
                    assert(idents_view(self.items@)[k] == item_v);
                    assert(false);
                }
            }
            let mut j: usize = 0;
            while j < out.len() && !ident_le_exec(&item, &out[j])
                invariant
                    0 <= j <= out@.len(),
                    out@ == out_pre,
                    ov == idents_view(out@),
                    item_v == ident_view(item),
                    forall|k: int| 0 <= k < j ==> !ident_le(item_v, #[trigger] ov[k]),
                decreases out@.len() - j,
            {
                assert(ov[j as int] == ident_view(out@[j as int]));
                j = j + 1;
            }
            assert(j < out@.len() ==> ident_le(item_v, ov[j as int]));
            proof {
                assert forall|k: int| 0 <= k < j implies ident_le(#[trigger] ov[k], item_v) by {
                    lemma_ident_le_total(item_v, ov[k]);
                }
                assert forall|k: int| j <= k < ov.len() implies ident_le(item_v, #[trigger] ov[k]) by {
                    assert(ident_le(item_v, ov[j as int]));
                    if k > j {
                        assert(ident_le(ov[j as int], ov[k]));
                        lemma_ident_le_trans(item_v, ov[j as int], ov[k]);
                    }
                }
                out_pre.insert_ensures(j as int, item);
            }
            out.insert(j, item);
            proof {
                // The views of the grown run are the old views with the new
                // one placed at `j`.
                assert(idents_view(out@) =~= ov.insert(j as int, item_v)) by {
                    ov.insert_ensures(j as int, item_v);
                    assert forall|k: int| 0 <= k < out@.len() implies idents_view(out@)[k]
                        == ov.insert(j as int, item_v)[k] by {
                        assert(idents_view(out@)[k] == ident_view(out@[k]));
                        if k < j {
                            assert(out@[k] == out_pre[k]);
                        } else if k > j {
                            assert(out@[k] == out_pre[k - 1]);
                        }
                    }
                }
                let nv = idents_view(out@);
                ov.insert_ensures(j as int, item_v);
                assert(sorted_idents(nv)) by {
                    assert forall|p: int, q: int| 0 <= p < q < nv.len() implies ident_le(
                        #[trigger] nv[p],
                        #[trigger] nv[q],
                    ) by {
                        if p < j && q < j {
                            assert(nv[p] == ov[p] && nv[q] == ov[q]);
                        } else if p < j && q == j {
                            assert(nv[p] == ov[p] && nv[q] == item_v);
                        } else if p < j && q > j {
                            assert(nv[p] == ov[p] && nv[q] == ov[q - 1]);
                            if q - 1 < j {
                                lemma_ident_le_trans(nv[p], ov[q - 1], item_v);
                                assert(ident_le(nv[p], ov[q - 1]));
                            }
                        } else if p == j {
                            assert(nv[p] == item_v && nv[q] == ov[q - 1]);
                        } else {
                            assert(nv[p] == ov[p - 1] && nv[q] == ov[q - 1]);
                        }
                    }
                }
                assert(nv.no_duplicates()) by {
                    assert forall|p: int, q: int|
                        0 <= p < nv.len() && 0 <= q < nv.len() && p != q implies nv[p] != nv[q] by {
                        let pp: int = if p < j {
                            p
                        } else {
                            p - 1
                        };
                        let qq: int = if q < j {
                            q
                        } else {
                            q - 1
                        };
                        if p == j {
                            assert(nv[p] == item_v && nv[q] == ov[qq]);
                            assert(!ov.contains(item_v));
                        } else if q == j {
                            assert(nv[q] == item_v && nv[p] == ov[pp]);
                            assert(!ov.contains(item_v));
                        } else {
                            assert(nv[p] == ov[pp] && nv[q] == ov[qq]);
                        }
                    }
                }
                lemma_seq_insert_to_set(ov, j as int, item_v);
                assert(self.items@.take(i + 1) =~= self.items@.take(i as int).push(
                    self.items@[i as int],
                ));
                broadcast use Seq::lemma_push_map_commute;
                broadcast use Seq::lemma_push_to_set_commute;

                assert(idents_view(self.items@.take(i + 1)) =~= idents_view(
                    self.items@.take(i as int),
                ).push(item_v));
                assert(idents_view(out@).to_set() =~= idents_view(self.items@.take(i + 1)).to_set());
            }
            i = i + 1;
        }
        proof {
            assert(self.items@.take(n as int) =~= self.items@);
        }
        out
    }
}

/// The output line of one identity: its name, a space, then its email in
/// angle brackets.
pub open spec fn line_view(a: (Seq<char>, Seq<char>)) -> Seq<char> {
    a.0 + " <"@ + a.1 + ">"@
}

/// Renders one output line per identity, in the order given.
pub fn format_lines(idents: &Vec<AuthorIdentity>) -> (r: Vec<String>)
    ensures
        r@.len() == idents@.len(),
        forall|k: int| 0 <= k < r@.len() ==> (#[trigger] r@[k])@ == line_view(
            ident_view(idents@[k]),
        ),
{
    let n = idents.len();
    let mut out: Vec<String> = Vec::new();
    let mut i: usize = 0;
    while i < n
        invariant
            0 <= i <= n,
            n == idents@.len(),
            out@.len() == i,
            forall|k: int| 0 <= k < i ==> (#[trigger] out@[k])@ == line_view(
                ident_view(idents@[k]),
            ),
        decreases n - i,
    {
        let a = &idents[i];
        let mut line = String::new();
        line.append(a.name.as_str());
        line.append(" <");
        line.append(a.email.as_str());
        line.append(">");
        out.push(line);
        i = i + 1;
    }
    out
}

} // verus!
