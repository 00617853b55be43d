//! Character shingles: the fixed-length windows of a name token.

use crate::error::ConfigurationError;
use crate::normalize::{clean_split_text, normalized_tokens};
use vstd::hash_set::StringHashSet;
use vstd::prelude::*;
use vstd::string::*;

verus! {

/// The shingles of one token, in order: every run of `n` consecutive
/// characters, or the token itself where it has no more than `n` characters.
pub open spec fn windows(token: Seq<char>, n: nat) -> Seq<Seq<char>> {
    if token.len() <= n {
        seq![token]
    } else {
        Seq::new((token.len() - n + 1) as nat, |i: int| token.subrange(i, i + n))
    }
}

/// The shingles of all of `tokens`, as one set.
pub open spec fn shingles_of(tokens: Seq<Seq<char>>, n: nat) -> Set<Seq<char>> {
    Set::new(
        |s: Seq<char>|
            exists|t: int| 0 <= t < tokens.len() && #[trigger] windows(tokens[t], n).contains(s),
    )
}

/// The signature of a raw text field: the shingles of its name tokens.
pub open spec fn signature(text: Seq<char>, n: nat) -> Set<Seq<char>> {
    shingles_of(normalized_tokens(text), n)
}

/// The shingles of all of `tokens` one after the other, repeats included.
pub open spec fn all_windows(tokens: Seq<Seq<char>>, n: nat) -> Seq<Seq<char>>
    decreases tokens.len(),
{
    if tokens.len() == 0 {
        Seq::empty()
    } else {
        all_windows(tokens.drop_last(), n) + windows(tokens.last(), n)
    }
}

/// `items` without repeats: each item stays where it first stands.
pub open spec fn first_occurrences(items: Seq<Seq<char>>) -> Seq<Seq<char>>
    decreases items.len(),
{
    if items.len() == 0 {
        Seq::empty()
    } else {
        let before = first_occurrences(items.drop_last());
        if before.contains(items.last()) {
            before
        } else {
            before.push(items.last())
        }
    }
}

/// The shingles of a raw text field in the order in which they first occur
/// in it.
pub open spec fn signature_order(text: Seq<char>, n: nat) -> Seq<Seq<char>> {
    first_occurrences(all_windows(normalized_tokens(text), n))
}

/// A set of shingles that remembers the order in which they were added.
pub struct ShingleSet {
    items: Vec<String>,
    seen: StringHashSet,
}

impl View for ShingleSet {
    type V = Set<Seq<char>>;

    closed spec fn view(&self) -> Set<Seq<char>> {
        self.seen@
    }
}

impl ShingleSet {
    #[verifier::type_invariant]
    spec fn well_formed(self) -> bool {
        &&& self.items.deep_view().no_duplicates()
        &&& self.items.deep_view().to_set() == self.seen@
    }

    /// The shingles in the order in which they were first added.
    pub closed spec fn order(&self) -> Seq<Seq<char>> {
        self.items.deep_view()
    }

    /// The empty set.
    pub fn new() -> (set: Self)
        ensures
            set@ == Set::<Seq<char>>::empty(),
            set.order() == Seq::<Seq<char>>::empty(),
            set.order().to_set() == set@,
    {
        let items: Vec<String> = Vec::new();
        let seen = StringHashSet::new();
        assert(items.deep_view() =~= Seq::<Seq<char>>::empty());
        assert(items.deep_view().to_set() =~= Set::<Seq<char>>::empty());
        ShingleSet { items, seen }
    }

    /// Adds a shingle; says whether it was new.
    pub fn insert(&mut self, shingle: String) -> (fresh: bool)
        ensures
            final(self)@ == old(self)@.insert(shingle@),
            fresh == !old(self)@.contains(shingle@),
            final(self).order() == if fresh {
                old(self).order().push(shingle@)
            } else {
                old(self).order()
            },
            final(self).order().to_set() == final(self)@,
            final(self).order().no_duplicates(),
    {
        proof {
            use_type_invariant(&*self);
        }
        if self.seen.contains(shingle.as_str()) {
            assert(self.seen@.insert(shingle@) =~= self.seen@);
            false
        } else {
            let mut taken = ShingleSet::new();
            std::mem::swap(self, &mut taken);
            let ShingleSet { mut items, mut seen } = taken;
            let ghost before = items.deep_view();
            seen.insert(shingle.clone());
            items.push(shingle);
            proof {
                assert(items.deep_view() =~= before.push(shingle@));
                before.lemma_push_to_set_commute(shingle@);
            }
            *self = ShingleSet { items, seen };
            true
        }
    }

    /// Whether the set holds `shingle`.
    pub fn contains(&self, shingle: &str) -> (found: bool)
        ensures
            found == self@.contains(shingle@),
    {
        self.seen.contains(shingle)
    }

    /// The number of shingles in the set.
    pub fn len(&self) -> (count: usize)
        ensures
            count == self.order().len(),
            count == self@.len(),
            self@.finite(),
    {
        proof {
            use_type_invariant(self);
            self.items.deep_view().unique_seq_to_set();
            vstd::seq_lib::seq_to_set_is_finite(self.items.deep_view());
        }
        self.items.len()
    }

    /// The shingles, each once, in the order in which they were first added.
    pub fn items(&self) -> (items: &Vec<String>)
        ensures
            items.deep_view() == self.order(),
            self.order().no_duplicates(),
            self.order().to_set() == self@,
    {
        proof {
            use_type_invariant(self);
        }
        &self.items
    }
}

/// What `tokenize` returns for `text` and `n`: the signature of `text`, or
/// the refusal of a shingle length of 0.
pub open spec fn is_tokenized(
    result: Result<ShingleSet, ConfigurationError>,
    text: Seq<char>,
    n: nat,
) -> bool {
    match result {
        Ok(set) => n > 0 && set@ == signature(text, n) && set.order() == signature_order(text, n),
        Err(e) => n == 0 && e == ConfigurationError::ZeroShingleLength,
    }
}

/// Tokenizing one text twice with one shingle length gives the same set of
/// shingles both times.
pub proof fn lemma_tokenize_is_repeatable(
    first: Result<ShingleSet, ConfigurationError>,
    second: Result<ShingleSet, ConfigurationError>,
    text: Seq<char>,
    n: nat,
)
    requires
        is_tokenized(first, text, n),
        is_tokenized(second, text, n),
    ensures
        first is Ok <==> second is Ok,
        first is Ok ==> first->Ok_0@ == second->Ok_0@,
        first is Err ==> first->Err_0 == second->Err_0,
{
}

/// Every shingle of one short token is the token: a token with fewer than
/// `n` characters still gives exactly one shingle.
pub proof fn lemma_short_token_is_its_only_shingle(token: Seq<char>, n: nat)
    requires
        token.len() < n,
    ensures
        windows(token, n) == seq![token],
        shingles_of(seq![token], n) == set![token],
{
    assert forall|s: Seq<char>| shingles_of(seq![token], n).contains(s) <==> s == token by {
        if s == token {
            assert(windows(seq![token][0], n).contains(s)) by {
                assert(windows(token, n)[0] == s);
            }
        }
    }
    assert(shingles_of(seq![token], n) =~= set![token]);
}

/// A window of a token with more than `n` characters has exactly `n`
/// characters, and there is one for each position at which it fits.
pub proof fn lemma_windows_of_long_token(token: Seq<char>, n: nat)
    requires
        token.len() > n,
    ensures
        windows(token, n).len() == token.len() - n + 1,
        forall|i: int|
            0 <= i < windows(token, n).len() ==> (#[trigger] windows(token, n)[i]).len() == n,
{
}

/// Adding the shingles of one more token to those of the tokens before it.
proof fn lemma_shingles_of_push(tokens: Seq<Seq<char>>, token: Seq<char>, n: nat)
    ensures
        shingles_of(tokens.push(token), n) == shingles_of(tokens, n).union(
            windows(token, n).to_set(),
        ),
{
    let more = tokens.push(token);
    assert forall|s: Seq<char>|
        shingles_of(more, n).contains(s) <==> shingles_of(tokens, n).contains(s) || windows(
            token,
            n,
        ).to_set().contains(s) by {
        if shingles_of(more, n).contains(s) {
            let t = choose|t: int| 0 <= t < more.len() && #[trigger] windows(more[t], n).contains(s);
            if t < tokens.len() {
                assert(windows(tokens[t], n).contains(s));
            }
        }
        if shingles_of(tokens, n).contains(s) {
            let t = choose|t: int|
                0 <= t < tokens.len() && #[trigger] windows(tokens[t], n).contains(s);
            assert(windows(more[t], n).contains(s));
        }
        if windows(token, n).to_set().contains(s) {
            assert(windows(more[tokens.len() as int], n).contains(s));
        }
    }
    assert(shingles_of(more, n) =~= shingles_of(tokens, n).union(windows(token, n).to_set()));
}

/// The shingles of one token, in order: its windows of `n` characters, or
/// the token itself where it has no more than `n` characters. A shingle
/// length of 0 is refused.
pub fn shingles(token: &str, n: usize) -> (result: Result<Vec<String>, ConfigurationError>)
    ensures
        result is Err <==> n == 0,
        result matches Err(e) ==> e == ConfigurationError::ZeroShingleLength,
        result matches Ok(out) ==> out.deep_view() == windows(token@, n as nat),
{
    if n == 0 {
        return Err(ConfigurationError::ZeroShingleLength);
    }
    let len: usize = token.unicode_len();
    let mut out: Vec<String> = Vec::new();
    if len <= n {
        out.push(token.to_owned());
        assert(out.deep_view() =~= seq![token@]);
        return Ok(out);
    }
    let last: usize = len - n;
    let mut i: usize = 0;
    while i < last
        invariant
            len == token@.len(),
            n < len,
            last == len - n,
            i <= last,
            out.len() == i,
            forall|k: int| 0 <= k < i ==> (#[trigger] out[k])@ == token@.subrange(k, k + n),
        decreases last - i,
    {
        out.push(token.substring_char(i, i + n).to_owned());
        i = i + 1;
    }
    out.push(token.substring_char(last, len).to_owned());
    assert(out.deep_view() =~= windows(token@, n as nat));
    Ok(out)
}

/// The set of the shingles of all of `tokens`, listed in the order in which
/// they first occur. A shingle length of 0 is refused.
pub fn shingle_tokens(tokens: &Vec<String>, n: usize) -> (result: Result<
    ShingleSet,
    ConfigurationError,
>)
    ensures
        result is Err <==> n == 0,
        result matches Err(e) ==> e == ConfigurationError::ZeroShingleLength,
        result matches Ok(set) ==> set@ == shingles_of(tokens.deep_view(), n as nat) && set.order()
            == first_occurrences(all_windows(tokens.deep_view(), n as nat)),
{
    if n == 0 {
        return Err(ConfigurationError::ZeroShingleLength);
    }
    let mut set = ShingleSet::new();
    let mut t: usize = 0;
    assert(tokens.deep_view().subrange(0, 0) =~= Seq::<Seq<char>>::empty());
    assert(shingles_of(Seq::<Seq<char>>::empty(), n as nat) =~= Set::<Seq<char>>::empty());
    while t < tokens.len()
        invariant
            n > 0,
            t <= tokens.len(),
            set@ == shingles_of(tokens.deep_view().subrange(0, t as int), n as nat),
            set.order() == first_occurrences(
                all_windows(tokens.deep_view().subrange(0, t as int), n as nat),
            ),
            set.order().to_set() == set@,
        decreases tokens.len() - t,
    {
        let found = match shingles(tokens[t].as_str(), n) {
            Ok(found) => found,
            Err(e) => {
                return Err(e);
            },
        };
        let ghost before = set@;
        let ghost earlier = all_windows(tokens.deep_view().subrange(0, t as int), n as nat);
        let mut j: usize = 0;
        assert(earlier + found.deep_view().subrange(0, 0) =~= earlier);
        while j < found.len()
            invariant
                j <= found.len(),
                set@ == before.union(found.deep_view().subrange(0, j as int).to_set()),
                set.order() == first_occurrences(
                    earlier + found.deep_view().subrange(0, j as int),
                ),
                set.order().to_set() == set@,
            decreases found.len() - j,
        {
            let ghost sofar = found.deep_view().subrange(0, j as int);
            let ghost listed = set.order();
            set.insert(found[j].clone());
            proof {
                let shingle = found[j as int]@;
                let longer = earlier + found.deep_view().subrange(0, j + 1);
                assert(found.deep_view().subrange(0, j + 1) =~= sofar.push(shingle));
                sofar.lemma_push_to_set_commute(shingle);
                assert(before.union(sofar.to_set()).insert(shingle) =~= before.union(
                    sofar.to_set().insert(shingle),
                ));
                assert(longer.drop_last() =~= earlier + sofar);
                assert(longer.last() == shingle);
                assert(listed.contains(shingle) == listed.to_set().contains(shingle));
            }
            j = j + 1;
        }
        proof {
            let prefix = tokens.deep_view().subrange(0, t as int);
            let longer = tokens.deep_view().subrange(0, t + 1);
            assert(found.deep_view().subrange(0, found.len() as int) =~= found.deep_view());
            assert(longer =~= prefix.push(tokens[t as int]@));
            assert(longer.drop_last() =~= prefix);
            lemma_shingles_of_push(prefix, tokens[t as int]@, n as nat);
        }
        t = t + 1;
    }
    assert(tokens.deep_view().subrange(0, t as int) =~= tokens.deep_view());
    Ok(set)
}

/// Tokenizes a raw text field into its signature: the set of the shingles of
/// length `n` of its name tokens. A shingle length of 0 is refused.
pub fn tokenize(text: &str, n: usize) -> (result: Result<ShingleSet, ConfigurationError>)
    ensures
        is_tokenized(result, text@, n as nat),
        result is Err <==> n == 0,
{
    if n == 0 {
        return Err(ConfigurationError::ZeroShingleLength);
    }
    let tokens = clean_split_text(text);
    shingle_tokens(&tokens, n)
}

} // verus!
