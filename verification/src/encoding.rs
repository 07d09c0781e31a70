//! The storage encoding of a participant-id sequence: a comma-joined
//! string. The domain works on explicit sequences; this boundary is
//! the only place the delimiter exists, and decoding is proved to
//! undo encoding for delimiter-free ids.

use vstd::prelude::*;

verus! {

/// The index of the first comma, or the length when there is none.
pub open spec fn first_comma(s: Seq<char>) -> int
    decreases s.len(),
{
    if s.len() == 0 {
        0
    } else if s[0] == ',' {
        0
    } else {
        1 + first_comma(s.drop_first())
    }
}

/// The comma-joined form of an id sequence.
pub open spec fn joined_ids(ids: Seq<Seq<char>>) -> Seq<char>
    decreases ids.len(),
{
    if ids.len() == 0 {
        Seq::empty()
    } else if ids.len() == 1 {
        ids[0]
    } else {
        ids[0] + seq![','] + joined_ids(ids.drop_first())
    }
}

/// The comma-split form of an encoded string.
pub open spec fn split_ids(s: Seq<char>) -> Seq<Seq<char>>
    decreases s.len(),
{
    let c = first_comma(s);
    if 0 <= c && c < s.len() {
        seq![s.subrange(0, c)] + split_ids(s.subrange(c + 1, s.len() as int))
    } else {
        seq![s]
    }
}

/// An id that cannot collide with the delimiter.
pub open spec fn comma_free(id: Seq<char>) -> bool {
    forall|c: int| 0 <= c < id.len() ==> id[c] != ','
}

/// At a position before which no comma occurs, a comma (or the end)
/// pins the first-comma index down.
proof fn lemma_first_comma_at(s: Seq<char>, i: int)
    requires
        0 <= i <= s.len(),
        forall|j: int| 0 <= j < i ==> s[j] != ',',
        i < s.len() ==> s[i] == ',',
    ensures
        first_comma(s) == i,
    decreases i,
{
    if i == 0 {
    } else {
        assert(s[0] != ',');
        let t = s.drop_first();
        assert forall|j: int| 0 <= j < i - 1 implies t[j] != ',' by {
            assert(t[j] == s[j + 1]);
        }
        if i - 1 < t.len() {
            assert(t[i - 1] == s[i]);
        }
        lemma_first_comma_at(t, i - 1);
    }
}

/// Appending one more id to a joined sequence appends a comma and the
/// id.
proof fn lemma_joined_push(ids: Seq<Seq<char>>, x: Seq<char>)
    requires
        ids.len() > 0,
    ensures
        joined_ids(ids.push(x)) == joined_ids(ids) + seq![','] + x,
    decreases ids.len(),
{
    if ids.len() == 1 {
        let p = ids.push(x);
        assert(p[0] == ids[0]);
        assert(p.drop_first() =~= seq![x]);
        assert(joined_ids(p.drop_first()) == x);
        assert(joined_ids(p) =~= ids[0] + seq![','] + x);
        assert(joined_ids(ids) == ids[0]);
    } else {
        let p = ids.push(x);
        assert(p.drop_first() =~= ids.drop_first().push(x));
        lemma_joined_push(ids.drop_first(), x);
        assert(joined_ids(p) == p[0] + seq![','] + joined_ids(p.drop_first()));
        assert(p[0] == ids[0]);
        assert(joined_ids(p) =~= joined_ids(ids) + seq![','] + x);
    }
}

/// Encodes a participant-id sequence for storage.
pub fn encode_participant_ids(ids: &Vec<String>) -> (r: String)
    ensures
        r@ == joined_ids(ids.deep_view()),
{
    let n = ids.len();
    let mut r = String::new();
    if n == 0 {
        proof {
            assert(ids.deep_view() =~= Seq::<Seq<char>>::empty());
        }
        return r;
    }
    r.append(ids[0].as_str());
    proof {
        assert(ids.deep_view().take(1) =~= seq![ids@[0]@]);
        assert(joined_ids(ids.deep_view().take(1)) == ids@[0]@);
        assert(r@ =~= joined_ids(ids.deep_view().take(1)));
    }
    let mut i: usize = 1;
    while i < n
        invariant
            n == ids@.len(),
            1 <= i <= n,
            r@ == joined_ids(ids.deep_view().take(i as int)),
        decreases n - i,
    {
        r.append(",");
        r.append(ids[i].as_str());
        proof {
            reveal_strlit(",");
            assert(ids.deep_view().take(i + 1) =~= ids.deep_view().take(i as int).push(
                ids.deep_view()[i as int],
            ));
            lemma_joined_push(ids.deep_view().take(i as int), ids.deep_view()[i as int]);
            assert(r@ =~= joined_ids(ids.deep_view().take(i + 1)));
        }
        i += 1;
    }
    proof {
        assert(ids.deep_view().take(n as int) =~= ids.deep_view());
    }
    r
}

/// Decodes a stored participant-id string back into the sequence.
pub fn decode_participant_ids(s: &String) -> (r: Vec<String>)
    ensures
        r.deep_view() == split_ids(s@),
    decreases s@.len(),
{
    let st = s.as_str();
    let n = st.unicode_len();
    let mut i: usize = 0;
    while i < n
        invariant
            n == s@.len(),
            0 <= i <= n,
            st@ == s@,
            forall|j: int| 0 <= j < i ==> s@[j] != ',',
        ensures
            0 <= i <= n,
            forall|j: int| 0 <= j < i ==> s@[j] != ',',
            i < n ==> s@[i as int] == ',',
        decreases n - i,
    {
        if st.get_char(i) == ',' {
            break ;
        }
        i += 1;
    }
    proof {
        lemma_first_comma_at(s@, i as int);
    }
    if i == n {
        let mut r: Vec<String> = Vec::new();
        r.push(s.clone());
        proof {
            assert(r.deep_view() =~= split_ids(s@));
        }
        r
    } else {
        let head = st.substring_char(0, i).to_owned();
        let tail = st.substring_char(i + 1, n).to_owned();
        let mut r = decode_participant_ids(&tail);
        r.insert(0, head);
        proof {
            assert(r.deep_view() =~= split_ids(s@));
        }
        r
    }
}

/// Decoding undoes encoding: for a nonempty sequence of ids that are
/// free of the delimiter, the round trip through the storage encoding
/// returns exactly the original sequence.
pub proof fn lemma_encoding_round_trip(ids: Seq<Seq<char>>)
    requires
        ids.len() > 0,
        forall|k: int| 0 <= k < ids.len() ==> comma_free(#[trigger] ids[k]),
    ensures
        split_ids(joined_ids(ids)) == ids,
    decreases ids.len(),
{
    if ids.len() == 1 {
        let s = joined_ids(ids);
        assert(s == ids[0]);
        assert(comma_free(ids[0]));
        lemma_first_comma_at(s, s.len() as int);
        assert(split_ids(s) =~= ids);
    } else {
        let s = joined_ids(ids);
        let rest = joined_ids(ids.drop_first());
        assert(s == ids[0] + seq![','] + rest);
        let c = ids[0].len() as int;
        assert forall|j: int| 0 <= j < c implies s[j] != ',' by {
            assert(s[j] == ids[0][j]);
            assert(comma_free(ids[0]));
        }
        assert(s[c] == ',');
        lemma_first_comma_at(s, c);
        assert(s.subrange(0, c) =~= ids[0]);
        assert(s.subrange(c + 1, s.len() as int) =~= rest);
        assert forall|k: int| 0 <= k < ids.drop_first().len() implies comma_free(
            #[trigger] ids.drop_first()[k],
        ) by {
            assert(ids.drop_first()[k] == ids[k + 1]);
        }
        lemma_encoding_round_trip(ids.drop_first());
        assert(split_ids(s) =~= seq![ids[0]] + ids.drop_first());
        assert(seq![ids[0]] + ids.drop_first() =~= ids);
    }
}

} // verus!
