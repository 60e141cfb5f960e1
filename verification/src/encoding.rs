//! The dictionary encoding of IRIs, literals and variable names into dense
//! numeric codes.
use vstd::prelude::*;
use vstd::hash_map::StringHashMap;

verus! {

/// The string held at position `c` of a dictionary, if any.
pub open spec fn decode_spec(strings: Seq<Seq<char>>, c: int) -> Option<Seq<char>> {
    if 0 <= c < strings.len() {
        Some(strings[c])
    } else {
        None
    }
}

/// The dictionary after adding `s`: unchanged if `s` is already present,
/// else `s` appended at the end.
pub open spec fn add_spec(strings: Seq<Seq<char>>, s: Seq<char>) -> Seq<Seq<char>> {
    if strings.contains(s) {
        strings
    } else {
        strings.push(s)
    }
}

/// The code that adding `s` returns: its position in the dictionary after the
/// addition.
pub open spec fn code_spec(strings: Seq<Seq<char>>, s: Seq<char>) -> int {
    if strings.contains(s) {
        strings.index_of(s)
    } else {
        strings.len() as int
    }
}

/// The dictionary that maps every distinct string to a dense numeric code.
///
/// Codes are handed out in order: the n-th distinct string that is added gets
/// the code `n`; `decoded[c]` is the string with code `c`.
pub struct InternalEncoder {
    encoded: StringHashMap<usize>,
    decoded: Vec<String>,
    counter: usize,
}

impl InternalEncoder {
    /// The strings of the dictionary, indexed by their code.
    pub closed spec fn strings(&self) -> Seq<Seq<char>> {
        self.decoded@.map_values(|s: String| s@)
    }

    /// `encoded` and `decoded` are inverse to each other, and `counter` is the
    /// number of codes handed out.
    pub closed spec fn wf(&self) -> bool {
        &&& self.counter == self.decoded@.len()
        &&& forall|c: int|
            0 <= c < self.decoded@.len() ==> #[trigger] self.encoded@.contains_key(
                self.decoded@[c]@,
            ) && self.encoded@[self.decoded@[c]@] == c
        &&& forall|k: Seq<char>| #[trigger]
            self.encoded@.contains_key(k) ==> self.encoded@[k] < self.decoded@.len()
                && self.decoded@[self.encoded@[k] as int]@ == k
    }

    proof fn lemma_wf_facts(&self)
        requires
            self.wf(),
        ensures
            self.strings().no_duplicates(),
            forall|k: Seq<char>| #[trigger]
                self.encoded@.contains_key(k) <==> self.strings().contains(k),
            forall|k: Seq<char>| #[trigger]
                self.encoded@.contains_key(k) ==> self.encoded@[k] == self.strings().index_of(k),
    {
        let st = self.strings();
        assert forall|i: int, j: int| 0 <= i < st.len() && 0 <= j < st.len() && i != j implies st[i]
            != st[j] by {
            assert(self.encoded@.contains_key(self.decoded@[i]@));
            assert(self.encoded@.contains_key(self.decoded@[j]@));
        }
        assert forall|k: Seq<char>| #[trigger]
            self.encoded@.contains_key(k) <==> st.contains(k) by {
            if self.encoded@.contains_key(k) {
                assert(st[self.encoded@[k] as int] == k);
            }
            if st.contains(k) {
                let c = choose|c: int| 0 <= c < st.len() && st[c] == k;
                assert(self.encoded@.contains_key(self.decoded@[c]@));
            }
        }
        assert forall|k: Seq<char>| #[trigger]
            self.encoded@.contains_key(k) implies self.encoded@[k] == st.index_of(k) by {
            let c = self.encoded@[k] as int;
            assert(st[c] == k);
            st.index_of_first_ensures(k);
            assert(st.contains(k));
            let f = st.index_of(k);
            assert(st[f] == k);
        }
    }

    pub fn new() -> (res: Self)
        ensures
            res.wf(),
            res.strings() == Seq::<Seq<char>>::empty(),
    {
        let res = InternalEncoder { encoded: StringHashMap::new(), decoded: Vec::new(), counter: 0 };
        assert(res.strings() =~= Seq::<Seq<char>>::empty());
        res
    }

    /// Returns the code of `uri`, giving it the next free code if it has none.
    pub fn add(&mut self, uri: String) -> (code: usize)
        requires
            old(self).wf(),
        ensures
            final(self).wf(),
            final(self).strings() == add_spec(old(self).strings(), uri@),
            code == code_spec(old(self).strings(), uri@),
    {
        proof {
            self.lemma_wf_facts();
        }
        match self.encoded.get(uri.as_str()) {
            Some(c) => {
                return *c;
            },
            None => {},
        }
        let code = self.decoded.len();
        let ghost old_strings = self.strings();
        let ghost old_decoded = self.decoded@;
        let ghost old_encoded = self.encoded@;
        self.encoded.insert(uri.clone(), code);
        self.decoded.push(uri);
        self.counter = self.decoded.len();
        proof {
            assert(self.strings() =~= old_strings.push(uri@));
            assert forall|c: int|
                0 <= c < self.decoded@.len() implies #[trigger] self.encoded@.contains_key(
                self.decoded@[c]@,
            ) && self.encoded@[self.decoded@[c]@] == c by {
                if c < old_decoded.len() {
                    assert(self.decoded@[c] == old_decoded[c]);
                    assert(old_strings[c] == old_decoded[c]@);
                    assert(old_strings.contains(old_decoded[c]@));
                    assert(old_encoded.contains_key(old_decoded[c]@));
                    assert(old_decoded[c]@ != uri@);
                }
            }
        }
        code
    }

    /// The code of `uri`, if it has one.
    pub fn get(&self, uri: &str) -> (code: Option<usize>)
        requires
            self.wf(),
        ensures
            code == (if self.strings().contains(uri@) {
                Some(self.strings().index_of(uri@) as usize)
            } else {
                None::<usize>
            }),
    {
        proof {
            self.lemma_wf_facts();
        }
        match self.encoded.get(uri) {
            Some(c) => Some(*c),
            None => None,
        }
    }

    /// The string with code `encoded`, if any.
    pub fn decode(&self, encoded: &usize) -> (res: Option<&String>)
        requires
            self.wf(),
        ensures
            match res {
                Some(s) => decode_spec(self.strings(), *encoded as int) == Some(s@),
                None => decode_spec(self.strings(), *encoded as int) is None,
            },
    {
        if *encoded < self.decoded.len() {
            Some(&self.decoded[*encoded])
        } else {
            None
        }
    }
}

/// The dictionary of a reasoning session: every IRI, literal and variable name
/// that the session meets is encoded once and stands as its code in triples,
/// rules and bindings.
pub struct Encoder {
    inner: InternalEncoder,
}

impl View for Encoder {
    type V = Seq<Seq<char>>;

    /// The strings of the dictionary, indexed by their code.
    closed spec fn view(&self) -> Seq<Seq<char>> {
        self.inner.strings()
    }
}

impl Encoder {
    #[verifier::type_invariant]
    spec fn inv(self) -> bool {
        self.inner.wf()
    }

    pub fn new() -> (res: Self)
        ensures
            res@ == Seq::<Seq<char>>::empty(),
    {
        Encoder { inner: InternalEncoder::new() }
    }

    /// Returns the code of `uri`, giving it the next free code if it has none.
    pub fn add(&mut self, uri: String) -> (code: usize)
        ensures
            final(self)@ == add_spec(old(self)@, uri@),
            code == code_spec(old(self)@, uri@),
            final(self)@.no_duplicates(),
    {
        proof {
            use_type_invariant(&*self);
        }
        let mut inner = InternalEncoder::new();
        std::mem::swap(&mut inner, &mut self.inner);
        let code = inner.add(uri);
        self.inner = inner;
        proof {
            use_type_invariant(&*self);
            self.inner.lemma_wf_facts();
        }
        code
    }

    /// The code of `uri`, if it has one.
    pub fn get(&self, uri: &str) -> (code: Option<usize>)
        ensures
            code == (if self@.contains(uri@) {
                Some(self@.index_of(uri@) as usize)
            } else {
                None::<usize>
            }),
    {
        proof {
            use_type_invariant(self);
        }
        self.inner.get(uri)
    }

    /// The string with code `encoded`, if any.
    pub fn decode(&self, encoded: &usize) -> (res: Option<String>)
        ensures
            match res {
                Some(s) => decode_spec(self@, *encoded as int) == Some(s@),
                None => decode_spec(self@, *encoded as int) is None,
            },
    {
        proof {
            use_type_invariant(self);
        }
        match self.inner.decode(encoded) {
            Some(s) => Some(s.clone()),
            None => None,
        }
    }

}

impl Clone for Encoder {
    /// A dictionary with the same strings under the same codes.
    fn clone(&self) -> (res: Self)
        ensures
            res@ == self@,
    {
        proof {
            use_type_invariant(self);
            self.inner.lemma_wf_facts();
        }
        let mut inner = InternalEncoder::new();
        let mut i: usize = 0;
        assert(self@.take(0) =~= Seq::<Seq<char>>::empty());
        while i < self.inner.decoded.len()
            invariant
                i <= self@.len(),
                self@.len() == self.inner.decoded@.len(),
                self@.no_duplicates(),
                self@ == self.inner.strings(),
                inner.wf(),
                inner.strings() == self@.take(i as int),
            decreases self@.len() - i,
        {
            let s = self.inner.decoded[i].clone();
            assert(s@ == self@[i as int]);
            assert(!self@.take(i as int).contains(s@)) by {
                if self@.take(i as int).contains(s@) {
                    let k = choose|k: int| 0 <= k < i && self@.take(i as int)[k] == s@;
                    assert(self@[k] == self@[i as int]);
                }
            }
            inner.add(s);
            assert(self@.take(i + 1) =~= self@.take(i as int).push(self@[i as int]));
            i = i + 1;
        }
        assert(self@.take(self@.len() as int) =~= self@);
        Encoder { inner }
    }
}

/// Decoding the code that an addition returns gives back the added string.
pub proof fn law_decode_after_add(strings: Seq<Seq<char>>, s: Seq<char>)
    ensures
        decode_spec(add_spec(strings, s), code_spec(strings, s)) == Some(s),
{
    if strings.contains(s) {
        strings.index_of_first_ensures(s);
    }
}

/// Adding a string twice changes nothing the second time and returns the same
/// code both times.
pub proof fn law_add_idempotent(strings: Seq<Seq<char>>, s: Seq<char>)
    ensures
        add_spec(add_spec(strings, s), s) == add_spec(strings, s),
        code_spec(add_spec(strings, s), s) == code_spec(strings, s),
{
    if !strings.contains(s) {
        let st = strings.push(s);
        assert(st[strings.len() as int] == s);
        assert(st.contains(s));
        st.index_of_first_ensures(s);
        let i = st.index_of(s);
        if i < strings.len() {
            assert(strings[i] == s);
            assert(strings.contains(s));
        }
    }
}

/// An addition keeps every code that was handed out before it.
pub proof fn law_add_keeps_codes(strings: Seq<Seq<char>>, s: Seq<char>)
    ensures
        add_spec(strings, s).len() >= strings.len(),
        add_spec(strings, s).subrange(0, strings.len() as int) == strings,
{
    assert(add_spec(strings, s).subrange(0, strings.len() as int) =~= strings);
}

/// A string that has been added is found again by `get` under the code that
/// the addition returned.
pub proof fn law_get_after_add(strings: Seq<Seq<char>>, s: Seq<char>)
    requires
        strings.no_duplicates(),
    ensures
        add_spec(strings, s).contains(s),
        add_spec(strings, s).index_of(s) == code_spec(strings, s),
{
    law_add_idempotent(strings, s);
    let st = add_spec(strings, s);
    if !strings.contains(s) {
        assert(st[strings.len() as int] == s);
    }
    assert(st.contains(s));
    if !strings.contains(s) {
        assert(st.contains(s));
        assert(add_spec(st, s) == st);
    }
}

} // verus!
