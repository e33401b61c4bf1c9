use vstd::prelude::*;

verus! {

/// A parsed JSON document.
///
/// A number is kept as the exact text that the grammar accepted (for
/// instance `-0.156` or `14.5E-10`); converting it to a binary float is left
/// to the caller. An object holds its members with pairwise distinct keys.
#[derive(Debug)]
pub enum JsonElement {
    Object(Vec<(String, JsonElement)>),
    Array(Vec<JsonElement>),
    Str(String),
    Number(String),
    Boolean(bool),
    Null,
}

/// The mathematical value of a JSON document.
pub enum JsonValue {
    Object(Map<Seq<char>, JsonValue>),
    Array(Seq<JsonValue>),
    Str(Seq<char>),
    Number(Seq<char>),
    Boolean(bool),
    Null,
}

/// The mapping denoted by a list of key/value pairs: a later pair overrides
/// an earlier one with the same key.
pub open spec fn pairs_to_map(p: Seq<(Seq<char>, JsonValue)>) -> Map<Seq<char>, JsonValue>
    decreases p.len(),
{
    if p.len() == 0 {
        Map::empty()
    } else {
        pairs_to_map(p.drop_last()).insert(p.last().0, p.last().1)
    }
}

/// The keys and values of a member list, in order.
pub open spec fn pair_views(m: Seq<(String, JsonElement)>) -> Seq<(Seq<char>, JsonValue)> {
    Seq::new(m.len(), |i: int| if 0 <= i < m.len() {
        (m[i].0@, m[i].1.view())
    } else {
        (Seq::empty(), JsonValue::Null)
    })
}

/// The values of a list of elements, in order.
pub open spec fn views(a: Seq<JsonElement>) -> Seq<JsonValue> {
    Seq::new(a.len(), |i: int| if 0 <= i < a.len() { a[i].view() } else { JsonValue::Null })
}

/// The mapping that a member list denotes.
pub open spec fn members_map(m: Seq<(String, JsonElement)>) -> Map<Seq<char>, JsonValue> {
    pairs_to_map(pair_views(m))
}

/// No two pairs share a key.
pub open spec fn keys_distinct(p: Seq<(Seq<char>, JsonValue)>) -> bool {
    forall|i: int, j: int| 0 <= i < p.len() && 0 <= j < p.len() && i != j ==> p[i].0 != p[j].0
}

/// A key is mapped exactly when some pair holds it.
pub proof fn lemma_pairs_lookup(p: Seq<(Seq<char>, JsonValue)>, k: Seq<char>)
    ensures
        pairs_to_map(p).contains_key(k) <==> exists|i: int| 0 <= i < p.len() && p[i].0 == k,
    decreases p.len(),
{
    if p.len() > 0 {
        let q = p.drop_last();
        lemma_pairs_lookup(q, k);
        if exists|i: int| 0 <= i < q.len() && q[i].0 == k {
            let i = choose|i: int| 0 <= i < q.len() && q[i].0 == k;
            assert(p[i] == q[i]);
        }
        if exists|i: int| 0 <= i < p.len() && p[i].0 == k {
            let i = choose|i: int| 0 <= i < p.len() && p[i].0 == k;
            if i < p.len() - 1 {
                assert(q[i] == p[i]);
            }
        }
    }
}

/// A key maps to the value of the last pair that holds it.
pub proof fn lemma_pairs_last(p: Seq<(Seq<char>, JsonValue)>, i: int)
    requires
        0 <= i < p.len(),
        forall|j: int| i < j < p.len() ==> p[j].0 != p[i].0,
    ensures
        pairs_to_map(p).contains_key(p[i].0),
        pairs_to_map(p)[p[i].0] == p[i].1,
    decreases p.len(),
{
    if i < p.len() - 1 {
        let q = p.drop_last();
        assert(q[i] == p[i]);
        lemma_pairs_last(q, i);
    }
}

/// Replacing the value of the pair that holds `k` maps `k` to the new value.
pub proof fn lemma_pairs_update(p: Seq<(Seq<char>, JsonValue)>, i: int, v: JsonValue)
    requires
        0 <= i < p.len(),
        keys_distinct(p),
    ensures
        pairs_to_map(p.update(i, (p[i].0, v))) == pairs_to_map(p).insert(p[i].0, v),
    decreases p.len(),
{
    let k = p[i].0;
    let u = p.update(i, (k, v));
    let q = p.drop_last();
    if i == p.len() - 1 {
        assert(u.drop_last() =~= q);
        assert(pairs_to_map(u) =~= pairs_to_map(p).insert(k, v));
    } else {
        assert(keys_distinct(q));
        lemma_pairs_update(q, i, v);
        assert(u.drop_last() =~= q.update(i, (k, v)));
        assert(p.last().0 != k);
        assert(pairs_to_map(u) =~= pairs_to_map(p).insert(k, v));
    }
}

impl JsonElement {
    pub open spec fn view(&self) -> JsonValue
        decreases self, 1nat, 0nat,
    {
        match self {
            JsonElement::Object(m) => JsonValue::Object(self.members_prefix_map(m.len() as nat)),
            JsonElement::Array(a) => JsonValue::Array(
                Seq::new(a.len() as nat, |i: int| if 0 <= i < a.len() { a[i].view() } else { JsonValue::Null })),
            JsonElement::Str(s) => JsonValue::Str(s@),
            JsonElement::Number(n) => JsonValue::Number(n@),
            JsonElement::Boolean(b) => JsonValue::Boolean(*b),
            JsonElement::Null => JsonValue::Null,
        }
    }

    /// Every object in the tree holds each key once.
    pub open spec fn wf(&self) -> bool
        decreases self, 1nat, 0nat,
    {
        match self {
            JsonElement::Object(m) => keys_distinct(pair_views(m@)) && self.children_wf(
                m.len() as nat,
            ),
            JsonElement::Array(a) => self.children_wf(a.len() as nat),
            _ => true,
        }
    }

    /// The first `n` children of a container are well formed.
    pub open spec fn children_wf(&self, n: nat) -> bool
        decreases self, 0nat, n,
    {
        match self {
            JsonElement::Object(m) => n == 0 || n > m.len() || (self.children_wf((n - 1) as nat)
                && m[n - 1].1.wf()),
            JsonElement::Array(a) => n == 0 || n > a.len() || (self.children_wf((n - 1) as nat)
                && a[n - 1].wf()),
            _ => true,
        }
    }

    /// For an object, the value of the member with key `key`.
    pub fn get(&self, key: &str) -> (r: Option<&JsonElement>)
        ensures
            match self.view() {
                JsonValue::Object(m) => if m.contains_key(key@) {
                    r matches Some(e) && e.view() == m[key@]
                } else {
                    r is None
                },
                _ => r is None,
            },
    {
        match self {
            JsonElement::Object(m) => {
                proof { lemma_object_view(*m); }
                let k = key.to_owned();
                let ghost p = pair_views(m@);
                let mut i: usize = m.len();
                while i > 0
                    invariant
                        i <= m.len(),
                        p == pair_views(m@),
                        self.view() == JsonValue::Object(pairs_to_map(p)),
                        k@ == key@,
                        forall|j: int| i <= j < m.len() ==> p[j].0 != key@,
                    decreases i,
                {
                    i = i - 1;
                    if m[i].0 == k {
                        proof {
                            assert(p[i as int].0 == key@);
                            assert(p[i as int].1 == m[i as int].1.view());
                            lemma_pairs_last(p, i as int);
                        }
                        return Some(&m[i].1);
                    }
                }
                proof { lemma_pairs_lookup(p, key@); }
                None
            },
            _ => None,
        }
    }

    /// For an object, the mapping that its first `n` members denote.
    pub open spec fn members_prefix_map(&self, n: nat) -> Map<Seq<char>, JsonValue>
        decreases self, 0nat, n,
    {
        match self {
            JsonElement::Object(m) => if n == 0 || n > m.len() {
                Map::empty()
            } else {
                self.members_prefix_map((n - 1) as nat).insert(m[n - 1].0@, m[n - 1].1.view())
            },
            _ => Map::empty(),
        }
    }
}

pub proof fn lemma_array_view(a: Vec<JsonElement>)
    ensures
        JsonElement::Array(a).view() == JsonValue::Array(views(a@)),
{
    if let JsonValue::Array(x) = JsonElement::Array(a).view() {
        assert(x =~= views(a@));
    }
}

pub proof fn lemma_object_view(m: Vec<(String, JsonElement)>)
    ensures
        JsonElement::Object(m).view() == JsonValue::Object(members_map(m@)),
{
    lemma_members_prefix(m, m.len() as nat);
    assert(pair_views(m@).take(m.len() as int) =~= pair_views(m@));
}

proof fn lemma_members_prefix(m: Vec<(String, JsonElement)>, n: nat)
    requires
        n <= m.len(),
    ensures
        JsonElement::Object(m).members_prefix_map(n) == pairs_to_map(pair_views(m@).take(n as int)),
    decreases n,
{
    if n > 0 {
        lemma_members_prefix(m, (n - 1) as nat);
        assert(pair_views(m@).take(n as int).drop_last() =~= pair_views(m@).take(n - 1));
    }
}

pub proof fn lemma_array_wf(a: Vec<JsonElement>)
    ensures
        JsonElement::Array(a).wf() <==> forall|i: int| 0 <= i < a.len() ==> #[trigger] a[i].wf(),
{
    lemma_array_children(a, a.len() as nat);
}

proof fn lemma_array_children(a: Vec<JsonElement>, n: nat)
    requires
        n <= a.len(),
    ensures
        JsonElement::Array(a).children_wf(n) <==> forall|i: int| 0 <= i < n ==> #[trigger] a[i].wf(),
    decreases n,
{
    if n > 0 {
        let k = n - 1;
        lemma_array_children(a, k as nat);
        if JsonElement::Array(a).children_wf(n) {
            assert forall|i: int| 0 <= i < n implies #[trigger] a[i].wf() by {
                if i == k {
                    assert(a[k].wf());
                }
            }
        }
        if forall|i: int| 0 <= i < n ==> #[trigger] a[i].wf() {
            assert(a[k].wf());
        }
    }
}

pub proof fn lemma_object_wf(m: Vec<(String, JsonElement)>)
    ensures
        JsonElement::Object(m).wf() <==> keys_distinct(pair_views(m@)) && forall|i: int|
            0 <= i < m.len() ==> #[trigger] m[i].1.wf(),
{
    lemma_object_children(m, m.len() as nat);
}

proof fn lemma_object_children(m: Vec<(String, JsonElement)>, n: nat)
    requires
        n <= m.len(),
    ensures
        JsonElement::Object(m).children_wf(n) <==> forall|i: int| 0 <= i < n ==> #[trigger] m[i].1.wf(),
    decreases n,
{
    if n > 0 {
        let k = n - 1;
        lemma_object_children(m, k as nat);
        if JsonElement::Object(m).children_wf(n) {
            assert forall|i: int| 0 <= i < n implies #[trigger] m[i].1.wf() by {
                if i == k {
                    assert(m[k].1.wf());
                }
            }
        }
        if forall|i: int| 0 <= i < n ==> #[trigger] m[i].1.wf() {
            assert(m[k].1.wf());
        }
    }
}

/// Sets `key` to `value` in a member list: the pair that holds the key gets
/// the new value, or a new pair is added at the end.
pub(crate) fn insert_member(entries: &mut Vec<(String, JsonElement)>, key: String, value: JsonElement)
    requires
        keys_distinct(pair_views(old(entries)@)),
        forall|i: int| 0 <= i < old(entries).len() ==> #[trigger] old(entries)[i].1.wf(),
        value.wf(),
    ensures
        keys_distinct(pair_views(final(entries)@)),
        forall|i: int| 0 <= i < final(entries).len() ==> #[trigger] final(entries)[i].1.wf(),
        members_map(final(entries)@) == members_map(old(entries)@).insert(key@, value.view()),
{
    let ghost p = pair_views(entries@);
    let mut i: usize = 0;
    while i < entries.len()
        invariant
            0 <= i <= entries.len(),
            entries@ == old(entries)@,
            p == pair_views(entries@),
            keys_distinct(p),
            forall|j: int| 0 <= j < entries.len() ==> #[trigger] entries[j].1.wf(),
            value.wf(),
            forall|j: int| 0 <= j < i ==> p[j].0 != key@,
        decreases entries.len() - i,
    {
        if entries[i].0 == key {
            let ghost kv = value.view();
            let old_pair = entries.remove(i);
            entries.insert(i, (key, value));
            proof {
                assert(pair_views(entries@) =~= p.update(i as int, (p[i as int].0, kv)));
                lemma_pairs_update(p, i as int, kv);
                let u = p.update(i as int, (p[i as int].0, kv));
                assert forall|a: int, b: int| 0 <= a < u.len() && 0 <= b < u.len() && a != b implies u[a].0
                    != u[b].0 by {
                    assert(u[a].0 == p[a].0 && u[b].0 == p[b].0);
                }
            }
            return;
        }
        i = i + 1;
    }
    let ghost kv = value.view();
    let ghost kk = key@;
    entries.push((key, value));
    proof {
        assert(pair_views(entries@) =~= p.push((kk, kv)));
        assert(pair_views(entries@).drop_last() =~= p);
    }
}

} // verus!
