//! Command-line arguments, taken out one by one.

use crate::tags::Tags;
use vstd::prelude::*;
use vstd::string::*;

verus! {

/// Where the only `=` of an argument stands, if it has exactly one.
pub open spec fn single_equals(a: Seq<char>) -> Option<int> {
    if exists|i: int|
        0 <= i < a.len() && a[i] == '=' && forall|j: int|
            0 <= j < a.len() && j != i ==> a[j] != '=' {
        Some(
            choose|i: int|
                0 <= i < a.len() && a[i] == '=' && forall|j: int|
                    0 <= j < a.len() && j != i ==> a[j] != '=',
        )
    } else {
        None
    }
}

pub open spec fn no_equals(a: Seq<char>) -> bool {
    forall|i: int| 0 <= i < a.len() ==> a[i] != '='
}

pub open spec fn is_flag(a: Seq<char>) -> bool {
    a.len() >= 2 && a[0] == '-' && a[1] == '-'
}

/// The key/value pairs, flags and free arguments that a list of arguments gives, in
/// order; `None` when one of them holds two `=` or more.
pub open spec fn parse_args(args: Seq<Seq<char>>) -> Option<
    (Map<Seq<char>, Seq<char>>, Set<Seq<char>>, Seq<Seq<char>>),
>
    decreases args.len(),
{
    if args.len() == 0 {
        Some((Map::empty(), Set::empty(), Seq::empty()))
    } else {
        match parse_args(args.drop_last()) {
            None => None,
            Some((kv, bits, free)) => {
                let a = args.last();
                if no_equals(a) {
                    if is_flag(a) {
                        Some((kv, bits.insert(a), free))
                    } else {
                        Some((kv, bits, free.push(a)))
                    }
                } else if let Some(i) = single_equals(a) {
                    Some((kv.insert(a.subrange(0, i), a.subrange(i + 1, a.len() as int)), bits, free))
                } else {
                    None
                }
            },
        }
    }
}

proof fn lemma_parse_args_fails_on(args: Seq<Seq<char>>, i: int)
    requires
        0 <= i <= args.len(),
        parse_args(args.take(i)) is None,
    ensures
        parse_args(args) is None,
    decreases args.len() - i,
{
    if i < args.len() {
        assert(args.take(i + 1).drop_last() =~= args.take(i));
        lemma_parse_args_fails_on(args, i + 1);
    } else {
        assert(args.take(i) =~= args);
    }
}

/// `v` is what `parser` returned, as `Ok`, on a string holding `text`.
pub open spec fn parsed_from<T, E, F: Fn(&str) -> Result<T, E>>(parser: F, text: Seq<char>, v: T) -> bool {
    exists|s: &str| s@ == text && #[trigger] parser.ensures((s,), Ok::<T, E>(v))
}

/// Command-line arguments: `key=value` pairs, `--flag`s, and free arguments, each taken
/// out as the program asks for it.
pub struct CmdArgs {
    kv: Tags,
    bits: Tags,
    free: Vec<String>,
    used: Tags,
}

impl CmdArgs {
    pub closed spec fn wf(&self) -> bool {
        self.kv.wf() && self.bits.wf() && self.used.wf()
    }

    /// The `key=value` pairs not taken yet.
    pub closed spec fn kv(&self) -> Map<Seq<char>, Seq<char>> {
        self.kv@
    }

    /// The flags not taken yet.
    pub closed spec fn bits(&self) -> Set<Seq<char>> {
        self.bits@.dom()
    }

    /// The free arguments not taken yet, in order.
    pub closed spec fn free(&self) -> Seq<Seq<char>> {
        self.free@.map_values(|s: String| s@)
    }

    /// The optional keys and flags taken already.
    pub closed spec fn used(&self) -> Set<Seq<char>> {
        self.used@.dom()
    }

    /// Sorts the arguments (the program's name left out); `Err` holds the first
    /// argument with more than one `=`.
    pub fn new(args: Vec<String>) -> (r: Result<CmdArgs, String>)
        ensures
            r is Ok <==> parse_args(args@.map_values(|s: String| s@)) is Some,
            r matches Ok(c) ==> c.wf() && parse_args(args@.map_values(|s: String| s@)) == Some(
                (c.kv(), c.bits(), c.free()),
            ) && c.used() == Set::<Seq<char>>::empty(),
    {
        let ghost av = args@.map_values(|s: String| s@);
        let mut out = CmdArgs { kv: Tags::new(), bits: Tags::new(), free: Vec::new(), used: Tags::new() };
        assert(out.bits@.dom() =~= Set::<Seq<char>>::empty());
        assert(out.free() =~= Seq::<Seq<char>>::empty());
        assert(out.used@.dom() =~= Set::<Seq<char>>::empty());
        let mut i: usize = 0;
        while i < args.len()
            invariant
                i <= args@.len(),
                av == args@.map_values(|s: String| s@),
                out.wf(),
                out.used() == Set::<Seq<char>>::empty(),
                parse_args(av.take(i as int)) == Some((out.kv(), out.bits(), out.free())),
            decreases args@.len() - i,
        {
            let arg = &args[i];
            assert(av.take(i + 1).drop_last() =~= av.take(i as int));
            assert(av.take(i + 1).last() == arg@);
            let n = arg.as_str().unicode_len();
            let mut first: Option<usize> = None;
            let mut second = false;
            let mut j: usize = 0;
            while j < n
                invariant
                    n == arg@.len(),
                    j <= n,
                    first is None ==> forall|x: int| 0 <= x < j ==> arg@[x] != '=',
                    first matches Some(f) ==> f < j && arg@[f as int] == '=' && forall|x: int|
                        0 <= x < f ==> arg@[x] != '=',
                    !second ==> (first matches Some(f) ==> forall|x: int|
                        f < x < j ==> arg@[x] != '='),
                    second ==> first is Some && exists|x: int|
                        0 <= x < j && x != first->0 && arg@[x] == '=',
                decreases n - j,
            {
                if arg.as_str().get_char(j) == '=' {
                    if first.is_none() {
                        first = Some(j);
                    } else {
                        second = true;
                    }
                }
                j = j + 1;
            }
            match first {
                None => {
                    assert(no_equals(arg@));
                    let is_bit = n >= 2 && arg.as_str().get_char(0) == '-' && arg.as_str().get_char(1) == '-';
                    let ghost fv = out.free();
                    let ghost bv = out.bits();
                    if is_bit {
                        out.bits.insert(arg.clone(), String::new());
                        assert(out.bits() =~= bv.insert(arg@));
                    } else {
                        out.free.push(arg.clone());
                        assert(out.free() =~= fv.push(arg@));
                    }
                },
                Some(f) => {
                    if second {
                        proof {
                            let x = choose|x: int| 0 <= x < n && x != f && arg@[x] == '=';
                            assert(single_equals(arg@) is None);
                            assert(!no_equals(arg@));
                            assert(parse_args(av.take(i + 1)) is None);
                            lemma_parse_args_fails_on(av, i + 1);
                        }
                        return Err(arg.clone());
                    }
                    assert(single_equals(arg@) == Some(f as int));
                    let k = arg.as_str().substring_char(0, f).to_owned();
                    let v = arg.as_str().substring_char(f + 1, n).to_owned();
                    out.kv.insert(k, v);
                },
            }
            i = i + 1;
        }
        assert(av.take(i as int) =~= av);
        Ok(out)
    }

    /// Takes out the value of a `key=value` argument that must be there.
    pub fn required(&mut self, key: &str) -> (r: String)
        requires
            old(self).wf(),
            old(self).kv().contains_key(key@),
        ensures
            final(self).wf(),
            r@ == old(self).kv()[key@],
            final(self).kv() == old(self).kv().remove(key@),
            final(self).bits() == old(self).bits(),
            final(self).free() == old(self).free(),
            final(self).used() == old(self).used(),
    {
        self.kv.remove(key).unwrap()
    }

    /// Takes out the value of an optional `key=value` argument. Asking twice for a key
    /// that was given is a mistake of the program, so it is ruled out.
    pub fn optional(&mut self, key: &str) -> (r: Option<String>)
        requires
            old(self).wf(),
            old(self).kv().contains_key(key@) || !old(self).used().contains(key@),
        ensures
            final(self).wf(),
            r is Some <==> old(self).kv().contains_key(key@),
            r matches Some(v) ==> v@ == old(self).kv()[key@] && final(self).used() == old(self).used().insert(key@),
            r is None ==> final(self).used() == old(self).used(),
            final(self).kv() == old(self).kv().remove(key@),
            final(self).bits() == old(self).bits(),
            final(self).free() == old(self).free(),
    {
        match self.kv.remove(key) {
            Some(value) => {
                let ghost u = self.used@;
                self.used.insert(key.to_owned(), String::new());
                assert(self.used@.dom() =~= u.dom().insert(key@));
                Some(value)
            },
            None => None,
        }
    }

    /// Takes out an optional `key=value` argument and reads its value with `parser`,
    /// which must accept it.
    pub fn optional_parse<T, E, F: Fn(&str) -> Result<T, E>>(&mut self, key: &str, parser: F) -> (r:
        Option<T>)
        requires
            old(self).wf(),
            old(self).kv().contains_key(key@) || !old(self).used().contains(key@),
            forall|s: &str| #[trigger] parser.requires((s,)),
            forall|s: &str, res: Result<T, E>|
                #[trigger] parser.ensures((s,), res) && s@ == old(self).kv()[key@] ==> res is Ok,
        ensures
            final(self).wf(),
            r is Some <==> old(self).kv().contains_key(key@),
            r matches Some(v) ==> parsed_from(parser, old(self).kv()[key@], v),
            final(self).kv() == old(self).kv().remove(key@),
            final(self).bits() == old(self).bits(),
            final(self).free() == old(self).free(),
            old(self).kv().contains_key(key@) ==> final(self).used() == old(self).used().insert(key@),
            !old(self).kv().contains_key(key@) ==> final(self).used() == old(self).used(),
    {
        let value = match self.optional(key) {
            Some(v) => v,
            None => {
                return None;
            },
        };
        let s = value.as_str();
        let res = parser(s);
        assert(parser.ensures((s,), res));
        match res {
            Ok(result) => {
                assert(s@ == old(self).kv()[key@]);
                assert(parser.ensures((s,), Ok::<T, E>(result)));
                assert(parsed_from(parser, old(self).kv()[key@], result));
                Some(result)
            },
            Err(_) => {
                proof {
                    assert(false);
                }
                None
            },
        }
    }

    /// Takes out a `--flag`. Asking twice for a flag that was given is a mistake of the
    /// program, so it is ruled out.
    pub fn enabled(&mut self, key: &str) -> (r: bool)
        requires
            old(self).wf(),
            old(self).bits().contains(key@) || !old(self).used().contains(key@),
        ensures
            final(self).wf(),
            r == old(self).bits().contains(key@),
            final(self).bits() == old(self).bits().remove(key@),
            r ==> final(self).used() == old(self).used().insert(key@),
            !r ==> final(self).used() == old(self).used(),
            final(self).kv() == old(self).kv(),
            final(self).free() == old(self).free(),
    {
        let ghost b = self.bits@;
        match self.bits.remove(key) {
            Some(_) => {
                assert(self.bits@.dom() =~= b.dom().remove(key@));
                let ghost u = self.used@;
                self.used.insert(key.to_owned(), String::new());
                assert(self.used@.dom() =~= u.dom().insert(key@));
                true
            },
            None => {
                assert(self.bits@.dom() =~= b.dom().remove(key@));
                false
            },
        }
    }

    /// Takes out the first free argument, which must be there.
    pub fn required_free(&mut self) -> (r: String)
        requires
            old(self).wf(),
            old(self).free().len() > 0,
        ensures
            final(self).wf(),
            r@ == old(self).free()[0],
            final(self).free() == old(self).free().drop_first(),
            final(self).kv() == old(self).kv(),
            final(self).bits() == old(self).bits(),
            final(self).used() == old(self).used(),
    {
        let r = self.free.remove(0);
        assert(self.free() =~= old(self).free().drop_first());
        r
    }

    /// Takes out the first free argument, if any is left.
    pub fn optional_free(&mut self) -> (r: Option<String>)
        requires
            old(self).wf(),
        ensures
            final(self).wf(),
            r is Some <==> old(self).free().len() > 0,
            r matches Some(v) ==> v@ == old(self).free()[0] && final(self).free() == old(self).free().drop_first(),
            r is None ==> final(self).free() == old(self).free(),
            final(self).kv() == old(self).kv(),
            final(self).bits() == old(self).bits(),
            final(self).used() == old(self).used(),
    {
        if self.free.len() == 0 {
            None
        } else {
            Some(self.required_free())
        }
    }

    /// Whether every argument was taken.
    pub fn done(&self) -> (r: bool)
        requires
            self.wf(),
        ensures
            r == (self.kv() == Map::<Seq<char>, Seq<char>>::empty() && self.bits()
                == Set::<Seq<char>>::empty() && self.free().len() == 0),
    {
        let r = self.kv.is_empty() && self.bits.is_empty() && self.free.len() == 0;
        proof {
            if self.bits@.dom() == Set::<Seq<char>>::empty() {
                assert(self.bits@ =~= Map::<Seq<char>, Seq<char>>::empty());
            }
        }
        r
    }
}

} // verus!
