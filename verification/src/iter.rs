//! Iterator adaptors of the signal path.
use vstd::prelude::*;
use vstd::std_specs::iter::IteratorSpec;

verus! {

/// The first item of each complete group of `n` items of `s`.
pub open spec fn group_heads<T>(s: Seq<T>, n: nat) -> Seq<T>
    recommends
        n > 0,
{
    Seq::new(s.len() / n, |k: int| s[k * n])
}

/// The runs of `n` neighbouring items of `s` that are followed by a further item.
pub open spec fn followed_windows<T>(s: Seq<T>, n: nat) -> Seq<Seq<T>> {
    Seq::new(
        if s.len() > n {
            (s.len() - n) as nat
        } else {
            0
        },
        |k: int| s.subrange(k, k + n),
    )
}

proof fn lemma_group_heads_step<T>(s: Seq<T>, n: nat)
    requires
        n > 0,
    ensures
        s.len() < n ==> group_heads(s, n).len() == 0,
        s.len() >= n ==> group_heads(s, n).len() > 0 && group_heads(s, n)[0] == s[0]
            && group_heads(s.skip(n as int), n) == group_heads(s, n).drop_first(),
{
    if s.len() < n {
        vstd::arithmetic::div_mod::lemma_basic_div(s.len() as int, n as int);
    } else {
        vstd::arithmetic::div_mod::lemma_div_plus_one(s.len() - n, n as int);
        assert(s.skip(n as int).len() / n + 1 == s.len() / n);
        assert forall|k: int| 0 <= k < s.skip(n as int).len() / n implies #[trigger] group_heads(
            s.skip(n as int),
            n,
        )[k] == group_heads(s, n)[k + 1] by {
            assert(k * n + n == (k + 1) * n) by (nonlinear_arith);
            assert(0 <= k * n < s.len() - n) by (nonlinear_arith)
                requires
                    n > 0,
                    s.len() >= n,
                    0 <= k < (s.len() - n) as nat / n,
            ;
        }
        assert(0 * n == 0) by (nonlinear_arith);
        assert(group_heads(s.skip(n as int), n) =~= group_heads(s, n).drop_first());
    }
}

proof fn lemma_followed_windows_step<T>(s: Seq<T>, n: nat)
    ensures
        s.len() > n ==> followed_windows(s, n)[0] == s.take(n as int) && followed_windows(
            s.drop_first(),
            n,
        ) == followed_windows(s, n).drop_first(),
{
    if s.len() > n {
        let rest = followed_windows(s.drop_first(), n);
        assert forall|k: int| 0 <= k < rest.len() implies #[trigger] rest[k] == followed_windows(
            s,
            n,
        )[k + 1] by {
            assert(s.drop_first().subrange(k, k + n) =~= s.subrange(k + 1, k + 1 + n));
        }
        assert(rest =~= followed_windows(s, n).drop_first());
    }
}

/// There is a head for each complete group, and head `k` is the item at `k * n`.
pub proof fn law_group_heads<T>(s: Seq<T>, n: nat, k: int)
    requires
        n > 0,
        0 <= k,
    ensures
        k < group_heads(s, n).len() <==> (k + 1) * n <= s.len(),
        (k + 1) * n <= s.len() ==> group_heads(s, n)[k] == s[k * n],
{
    let len = s.len() as int;
    vstd::arithmetic::div_mod::lemma_fundamental_div_mod(len, n as int);
    assert(k < len / (n as int) <==> (k + 1) * n <= len) by (nonlinear_arith)
        requires
            n > 0,
            0 <= k,
            len == n * (len / (n as int)) + len % (n as int),
            0 <= len % (n as int) < n,
    ;
}

/// There is a window at `k` for each run of `n` items from `k` on that has an item behind it, and
/// it holds that run.
pub proof fn law_followed_windows<T>(s: Seq<T>, n: nat, k: int)
    requires
        0 <= k,
    ensures
        k < followed_windows(s, n).len() <==> k + n < s.len(),
        k + n < s.len() ==> followed_windows(s, n)[k].len() == n && forall|i: int|
            0 <= i < n ==> #[trigger] followed_windows(s, n)[k][i] == s[k + i],
{
}

/// An adaptor that keeps the first item of each complete group of `n` items.
pub struct EveryNth<I> {
    n: usize,
    iter: I,
}

impl<I> EveryNth<I> {
    /// The size of a group.
    pub closed spec fn group(self) -> nat {
        self.n as nat
    }

    /// The iterator that the items are drawn from.
    pub closed spec fn source(self) -> I {
        self.iter
    }
}

impl<I: Iterator> EveryNth<I> {
    /// The first item of the next group; nothing once no complete group is left. What is drawn
    /// for an incomplete group is dropped.
    pub fn next(&mut self) -> (item: Option<I::Item>)
        requires
            old(self).group() > 0,
        ensures
            final(self).group() == old(self).group(),
            final(self).source().obeys_prophetic_iter_laws() == old(
                self,
            ).source().obeys_prophetic_iter_laws(),
            old(self).source().obeys_prophetic_iter_laws() ==> {
                let before = old(self).source().remaining();
                let after = final(self).source().remaining();
                let heads = group_heads(before, old(self).group());
                if heads.len() > 0 {
                    &&& item == Some(heads[0])
                    &&& after == before.skip(old(self).group() as int)
                    &&& group_heads(after, old(self).group()) == heads.drop_first()
                } else {
                    item is None && after.len() == 0
                }
            },
            old(self).source().obeys_prophetic_iter_laws() ==> {
                let before = old(self).source().remaining();
                if before.len() >= old(self).group() {
                    &&& item == Some(before[0])
                    &&& final(self).source().remaining() == before.skip(old(self).group() as int)
                } else {
                    item is None && final(self).source().remaining().len() == 0
                }
            },
            old(self).source().obeys_prophetic_iter_laws() ==> (old(self).source().decrease() is Some
                <==> final(self).source().decrease() is Some),
            old(self).source().obeys_prophetic_iter_laws() && item is Some
                && final(self).source().decrease() is Some ==> decreases_to!(
                old(self).source().decrease()->0 => final(self).source().decrease()->0
            ),
    {
        let ghost before = self.iter.remaining();
        let ghost laws = self.iter.obeys_prophetic_iter_laws();
        proof {
            lemma_group_heads_step(before, self.n as nat);
        }
        let item = match self.iter.next() {
            Some(item) => item,
            None => {
                return None;
            },
        };
        let mut skipped: usize = 0;
        while skipped < self.n - 1
            invariant
                self.n == old(self).n,
                skipped < self.n,
                self.iter.obeys_prophetic_iter_laws() == laws,
                laws ==> before.len() > skipped && self.iter.remaining() == before.skip(skipped + 1),
                laws == old(self).iter.obeys_prophetic_iter_laws(),
                laws ==> before == old(self).iter.remaining(),
                laws ==> (old(self).iter.decrease() is Some <==> self.iter.decrease() is Some),
                laws && self.iter.decrease() is Some ==> decreases_to!(
                    old(self).iter.decrease()->0 => self.iter.decrease()->0
                ),
            decreases self.n - skipped,
        {
            if self.iter.next().is_none() {
                proof {
                    lemma_group_heads_step(before, self.n as nat);
                }
                return None;
            }
            skipped += 1;
        }
        Some(item)
    }
}

/// An adaptor that hands out windows of `N` neighbouring items. A window is handed out once
/// the item after it has been drawn, so the run that ends with the last item never is.
pub struct ArrayWindows<I: Iterator, const N: usize> {
    iter: I,
    current: [I::Item; N],
    empty: bool,
}

impl<I: Iterator, const N: usize> ArrayWindows<I, N> {
    /// The iterator that the items are drawn from.
    pub closed spec fn source(self) -> I {
        self.iter
    }

    /// The window that is handed out next.
    pub closed spec fn window(self) -> Seq<I::Item> {
        self.current@
    }

    /// Whether the source held fewer than `N` items to begin with.
    pub closed spec fn is_empty(self) -> bool {
        self.empty
    }
}

impl<I: Iterator, const N: usize> ArrayWindows<I, N> where I::Item: Copy {
    /// The next window; nothing once no item is left to follow it.
    pub fn next(&mut self) -> (item: Option<[I::Item; N]>)
        requires
            N > 0,
        ensures
            old(self).window().len() == N,
            final(self).window().len() == N,
            final(self).is_empty() == old(self).is_empty(),
            final(self).source().obeys_prophetic_iter_laws() == old(
                self,
            ).source().obeys_prophetic_iter_laws(),
            old(self).is_empty() ==> item is None && *final(self) == *old(self),
            !old(self).is_empty() ==> match item {
                Some(window) => window@ == old(self).window() && final(self).window().drop_last()
                    == old(self).window().drop_first(),
                None => final(self).window() == old(self).window().drop_first().push(
                    old(self).window()[0],
                ),
            },
            !old(self).is_empty() && old(self).source().obeys_prophetic_iter_laws() ==> {
                let before = old(self).source().remaining();
                let after = final(self).source().remaining();
                let windows = followed_windows(old(self).window() + before, N as nat);
                if windows.len() > 0 {
                    &&& item matches Some(window) && window@ == windows[0]
                    &&& final(self).window() == old(self).window().drop_first().push(before[0])
                    &&& after == before.drop_first()
                    &&& followed_windows(final(self).window() + after, N as nat)
                        == windows.drop_first()
                } else {
                    item is None && after == before
                }
            },
            !old(self).is_empty() && old(self).source().obeys_prophetic_iter_laws() ==> {
                let before = old(self).source().remaining();
                &&& item is Some <==> before.len() > 0
                &&& before.len() > 0 ==> final(self).window().last() == before[0]
            },
            old(self).source().obeys_prophetic_iter_laws() ==> (old(self).source().decrease() is Some
                <==> final(self).source().decrease() is Some),
            old(self).source().obeys_prophetic_iter_laws() && item is Some
                && final(self).source().decrease() is Some ==> decreases_to!(
                old(self).source().decrease()->0 => final(self).source().decrease()->0
            ),
    {
        if self.empty {
            return None;
        }
        let c = self.current;
        let ghost before = self.current@ + self.iter.remaining();
        proof {
            lemma_followed_windows_step(before, N as nat);
        }
        self.rotate();
        let drawn = self.iter.next();
        match drawn {
            None => None,
            Some(last) => {
                self.current[N - 1] = last;
                proof {
                    assert(self.iter.obeys_prophetic_iter_laws() ==> self.current@
                        + self.iter.remaining() == before.drop_first());
                }
                Some(c)
            },
        }
    }

    /// Moves the first item of the window behind the last.
    fn rotate(&mut self)
        requires
            N > 0,
        ensures
            final(self).iter == old(self).iter,
            final(self).empty == old(self).empty,
            final(self).current@ == old(self).current@.drop_first().push(old(self).current@[0]),
    {
        let first = self.current[0];
        let mut k: usize = 0;
        while k < N - 1
            invariant
                N > 0,
                k < N,
                self.iter == old(self).iter,
                self.empty == old(self).empty,
                forall|j: int| 0 <= j < k ==> self.current@[j] == old(self).current@[j + 1],
                forall|j: int| k <= j < N ==> self.current@[j] == old(self).current@[j],
            decreases N - k,
        {
            self.current[k] = self.current[k + 1];
            k += 1;
        }
        self.current[N - 1] = first;
    }
}

/// Adaptors for every iterator.
pub trait IterExt: Iterator + Sized {
    /// Keeps the first item of each complete group of `n` items.
    fn every_nth(self, n: usize) -> (adaptor: EveryNth<Self>)
        requires
            n > 0,
        ensures
            adaptor.group() == n,
            adaptor.source() == self,
    {
        EveryNth { n, iter: self }
    }

    /// Hands out windows of `N` neighbouring items, each once the item after it has been drawn.
    /// The first `N` items are drawn at once; defaults stand in for those that are missing, but
    /// such a window is never handed out.
    fn array_windows<const N: usize>(self) -> (adaptor: ArrayWindows<Self, N>) where
        Self::Item: Copy + Default,

        ensures
            adaptor.window().len() == N,
            self.obeys_prophetic_iter_laws() ==> {
                let items = self.remaining();
                &&& adaptor.source().obeys_prophetic_iter_laws()
                &&& adaptor.source().decrease() is Some <==> self.decrease() is Some
                &&& adaptor.is_empty() == (items.len() < N)
                &&& items.len() >= N ==> adaptor.window() == items.take(N as int)
                    && adaptor.source().remaining() == items.skip(N as int)
                &&& items.len() < N ==> adaptor.source().remaining().len() == 0
                &&& forall|i: int|
                    0 <= i < N ==> if i < items.len() {
                        #[trigger] adaptor.window()[i] == items[i]
                    } else {
                        call_ensures(Self::Item::default, (), adaptor.window()[i])
                    }
            },
    {
        let mut iter = self;
        let mut is_empty = false;
        let mut current = [Self::Item::default(); N];
        let mut k: usize = 0;
        let ghost laws = self.obeys_prophetic_iter_laws();
        let ghost items = self.remaining();
        while k < N
            invariant
                k <= N,
                iter.obeys_prophetic_iter_laws() == laws,
                laws ==> (iter.decrease() is Some <==> self.decrease() is Some),
                laws ==> is_empty == (items.len() < k),
                laws && is_empty ==> iter.remaining().len() == 0,
                laws && !is_empty ==> iter.remaining() == items.skip(k as int),
                laws ==> forall|j: int| 0 <= j < k && j < items.len() ==> current@[j] == items[j],
                laws ==> forall|j: int|
                    0 <= j < N && (j >= k || j >= items.len()) ==> call_ensures(
                        Self::Item::default,
                        (),
                        #[trigger] current@[j],
                    ),
            decreases N - k,
        {
            match iter.next() {
                Some(val) => {
                    current[k] = val;
                },
                None => {
                    is_empty = true;
                },
            }
            k += 1;
        }
        ArrayWindows { current, iter, empty: is_empty }
    }
}

impl<I> IterExt for I where I: Iterator {
}

} // verus!
