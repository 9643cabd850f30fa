use crate::graph::StoreFST;
use crate::key::{atom_from_hex, atom_name, hex_number, StoreFSTBuilder, StoreFSTKey};
use crate::outside::{
    builder_finish, builder_insert, builder_new, built_terms, decoded_terms, graph_from_bytes,
    readable, sealed, set_size, set_terms,
};
use crate::pool::StoreFSTPool;
use crate::terms::{
    ascending, bytes_lt, lemma_lex_asym, lemma_strict_push, lex_lt, strictly_ascending,
};
use vstd::prelude::*;
use vstd::string::StringSliceAdditionalSpecFns;

verus! {

pub const NEWLINE: u8 = 10;

/// The backup of a graph: each term followed by a newline, in order.
pub open spec fn backup_text(terms: Seq<Seq<u8>>) -> Seq<u8>
    decreases terms.len(),
{
    if terms.len() == 0 {
        Seq::empty()
    } else {
        terms[0] + seq![NEWLINE] + backup_text(terms.drop_first())
    }
}

/// The lines of `text` after the lines `acc` and the started line `cur`:
/// a newline ends a line; a last line without newline counts when it is
/// not empty.
pub open spec fn split_from(text: Seq<u8>, cur: Seq<u8>, acc: Seq<Seq<u8>>) -> Seq<Seq<u8>>
    decreases text.len(),
{
    if text.len() == 0 {
        if cur.len() > 0 {
            acc.push(cur)
        } else {
            acc
        }
    } else if text[0] == NEWLINE {
        split_from(text.drop_first(), Seq::empty(), acc.push(cur))
    } else {
        split_from(text.drop_first(), cur.push(text[0]), acc)
    }
}

/// The lines of a text.
pub open spec fn lines_of(text: Seq<u8>) -> Seq<Seq<u8>> {
    split_from(text, Seq::empty(), Seq::empty())
}

/// A term that a backup line carries back unchanged: no newline in it.
pub open spec fn line_safe(t: Seq<u8>) -> bool {
    forall|i: int| 0 <= i < t.len() ==> t[i] != NEWLINE
}

proof fn lemma_split_line(t: Seq<u8>, rest: Seq<u8>, cur: Seq<u8>, acc: Seq<Seq<u8>>)
    requires
        forall|i: int| 0 <= i < t.len() ==> t[i] != NEWLINE,
    ensures
        split_from(t + seq![NEWLINE] + rest, cur, acc) == split_from(
            rest,
            Seq::empty(),
            acc.push(cur + t),
        ),
    decreases t.len(),
{
    let text = t + seq![NEWLINE] + rest;
    if t.len() == 0 {
        assert(text[0] == NEWLINE);
        assert(text.drop_first() =~= rest);
        assert(cur + t =~= cur);
    } else {
        assert(text[0] == t[0]);
        let t2 = t.drop_first();
        assert(text.drop_first() =~= t2 + seq![NEWLINE] + rest);
        lemma_split_line(t2, rest, cur.push(t[0]), acc);
        assert(cur.push(t[0]) + t2 =~= cur + t);
    }
}

proof fn lemma_split_backup(terms: Seq<Seq<u8>>, acc: Seq<Seq<u8>>)
    requires
        forall|i: int| 0 <= i < terms.len() ==> line_safe(#[trigger] terms[i]),
    ensures
        split_from(backup_text(terms), Seq::empty(), acc) == acc + terms,
    decreases terms.len(),
{
    if terms.len() == 0 {
        assert(acc + terms =~= acc);
    } else {
        let t = terms[0];
        assert(line_safe(terms[0]));
        let rest = terms.drop_first();
        assert forall|i: int| 0 <= i < rest.len() implies line_safe(#[trigger] rest[i]) by {
            assert(rest[i] == terms[i + 1]);
        }
        lemma_split_line(t, backup_text(rest), Seq::empty(), acc);
        assert(Seq::<u8>::empty() + t =~= t);
        lemma_split_backup(rest, acc.push(t));
        assert(acc.push(t) + rest =~= acc + terms);
    }
}

/// Reading back the backup of a list of terms gives that list, provided no
/// term holds a newline or ends with a carriage return.
pub proof fn lemma_backup_lines(terms: Seq<Seq<u8>>)
    requires
        forall|i: int| 0 <= i < terms.len() ==> line_safe(#[trigger] terms[i]),
    ensures
        lines_of(backup_text(terms)) == terms,
{
    lemma_split_backup(terms, Seq::empty());
    assert(Seq::<Seq<u8>>::empty() + terms =~= terms);
}

/// The backup text of a list of terms.
pub fn dump_terms(terms: &Vec<Vec<u8>>) -> (r: Vec<u8>)
    ensures
        r@ == backup_text(terms.deep_view()),
{
    let ghost tv = terms.deep_view();
    let mut out: Vec<u8> = Vec::new();
    let mut i: usize = 0;
    proof {
        assert(tv.subrange(0, tv.len() as int) =~= tv);
        assert(out@ + backup_text(tv) =~= backup_text(tv));
    }
    while i < terms.len()
        invariant
            tv == terms.deep_view(),
            0 <= i <= tv.len(),
            out@ + backup_text(tv.subrange(i as int, tv.len() as int)) == backup_text(tv),
        decreases tv.len() - i,
    {
        let t = &terms[i];
        let ghost rest = tv.subrange(i as int, tv.len() as int);
        let ghost before = out@;
        proof {
            assert(rest.drop_first() =~= tv.subrange(i + 1, tv.len() as int));
            assert(rest[0] == t@);
        }
        let mut k: usize = 0;
        while k < t.len()
            invariant
                0 <= k <= t@.len(),
                out@ == before + t@.subrange(0, k as int),
            decreases t@.len() - k,
        {
            out.push(t[k]);
            k = k + 1;
            proof {
                assert(out@ =~= before + t@.subrange(0, k as int));
            }
        }
        out.push(NEWLINE);
        proof {
            assert(t@.subrange(0, t@.len() as int) =~= t@);
            assert(out@ =~= before + t@ + seq![NEWLINE]);
            assert(before + backup_text(rest) =~= out@ + backup_text(tv.subrange(i + 1, tv.len() as int)));
        }
        i = i + 1;
    }
    proof {
        assert(tv.subrange(i as int, tv.len() as int) =~= Seq::<Seq<u8>>::empty());
        assert(out@ + Seq::<u8>::empty() =~= out@);
    }
    out
}

/// The backup text of a live graph.
pub fn backup_graph(store: &StoreFST) -> (r: Vec<u8>)
    requires
        store.wf(),
    ensures
        r@ == backup_text(store.terms()),
{
    let terms = store.as_stream();
    dump_terms(&terms)
}

/// Splits a backup text into its lines.
pub fn split_lines(text: &[u8]) -> (r: Vec<Vec<u8>>)
    ensures
        r.deep_view() == lines_of(text@),
{
    let mut acc: Vec<Vec<u8>> = Vec::new();
    let mut cur: Vec<u8> = Vec::new();
    let mut i: usize = 0;
    proof {
        assert(text@.subrange(0, text@.len() as int) =~= text@);
        assert(acc.deep_view() =~= Seq::<Seq<u8>>::empty());
    }
    while i < text.len()
        invariant
            0 <= i <= text@.len(),
            split_from(text@.subrange(i as int, text@.len() as int), cur@, acc.deep_view())
                == lines_of(text@),
        decreases text@.len() - i,
    {
        let ghost rest = text@.subrange(i as int, text@.len() as int);
        proof {
            assert(rest.drop_first() =~= text@.subrange(i + 1, text@.len() as int));
            assert(rest[0] == text@[i as int]);
        }
        if text[i] == NEWLINE {
            let ghost prev = acc.deep_view();
            let ghost pv = acc@;
            let line = cur;
            let ghost lv = line;
            acc.push(line);
            proof {
                assert(acc@ == pv.push(lv));
                assert(acc.deep_view()[acc@.len() - 1] == lv@);
                assert(acc.deep_view() =~= prev.push(lv@));
            }
            cur = Vec::new();
            proof {
                assert(cur@ =~= Seq::<u8>::empty());
            }
        } else {
            cur.push(text[i]);
        }
        i = i + 1;
    }
    if cur.len() > 0 {
        let ghost prev = acc.deep_view();
        let ghost pv = acc@;
        let line = cur;
        let ghost lv = line;
        acc.push(line);
        proof {
            assert(acc@ == pv.push(lv));
            assert(acc.deep_view()[acc@.len() - 1] == lv@);
            assert(acc.deep_view() =~= prev.push(lv@));
        }
    }
    acc
}

/// Why a graph could not be restored from its backup.
#[derive(Clone, Copy, PartialEq, Eq, Structural, Debug)]
pub enum RestoreError {
    /// The backup's lines are not in ascending order.
    OutOfOrder,
}

/// Builds the encoding of an ordered set holding `lines`, which must come in
/// strictly ascending order: a line below or equal to the one before it is
/// refused.
pub fn build_set(lines: &Vec<Vec<u8>>) -> (r: Result<Vec<u8>, RestoreError>)
    ensures
        r is Ok <==> strictly_ascending(lines.deep_view()),
        r is Err ==> r == Err::<Vec<u8>, RestoreError>(RestoreError::OutOfOrder),
        r matches Ok(bytes) ==> decoded_terms(bytes@) == lines.deep_view() && sealed(bytes@),
        r matches Ok(bytes) ==> (lines@.len() == 0 ==> bytes@.len() == 35),
{
    let ghost lv = lines.deep_view();
    let mut builder = builder_new();
    let mut i: usize = 0;
    while i < lines.len()
        invariant
            lv == lines.deep_view(),
            0 <= i <= lv.len(),
            built_terms(builder) == lv.subrange(0, i as int),
            strictly_ascending(lv.subrange(0, i as int)),
        decreases lv.len() - i,
    {
        let ghost e0 = built_terms(builder);
        proof {
            assert(lines[i as int]@ == lv[i as int]);
            assert(lv.subrange(0, i + 1) =~= e0.push(lv[i as int]));
        }
        if i > 0 {
            proof {
                assert(lines[i - 1]@ == lv[i - 1]);
            }
            if !bytes_lt(lines[i - 1].as_slice(), lines[i].as_slice()) {
                proof {
                    assert(!strictly_ascending(lv)) by {
                        assert(!lex_lt(lv[i - 1], lv[i as int]));
                    }
                }
                return Err(RestoreError::OutOfOrder);
            }
            proof {
                assert(e0.last() == lv[i - 1]);
                lemma_lex_asym(e0.last(), lv[i as int]);
            }
        }
        let accepted = builder_insert(&mut builder, lines[i].as_slice());
        proof {
            assert(accepted);
            lemma_strict_push(e0, lv[i as int]);
        }
        i = i + 1;
    }
    proof {
        assert(lv.subrange(0, i as int) =~= lv);
    }
    let bytes = builder_finish(builder).unwrap();
    Ok(bytes)
}

impl StoreFSTBuilder {
    /// Opens an ordered set from its encoding; an encoding that a builder
    /// sealed always opens.
    pub fn open_bytes(bytes: Vec<u8>) -> (r: Option<fst::Set>)
        ensures
            r matches Some(s) ==> set_terms(s) == decoded_terms(bytes@) && set_size(s)
                == bytes@.len(),
            sealed(bytes@) ==> r is Some,
            r matches Some(s) ==> (sealed(bytes@) ==> readable(s)),
    {
        graph_from_bytes(bytes)
    }

    /// An empty ordered set, for a graph with nothing on disk yet.
    pub fn empty() -> (r: Option<fst::Set>)
        ensures
            r is Some,
            r matches Some(s) ==> set_terms(s) == Seq::<Seq<u8>>::empty() && readable(s)
                && set_size(s) == 35,
    {
        let none: Vec<Vec<u8>> = Vec::new();
        proof {
            assert(none.deep_view() =~= Seq::<Seq<u8>>::empty());
        }
        match build_set(&none) {
            Ok(bytes) => {
                proof {
                    let d = decoded_terms(bytes@);
                    if d.len() > 0 {
                        assert(d.contains(d[0]));
                    }
                    assert(d =~= Seq::<Seq<u8>>::empty());
                }
                Self::open_bytes(bytes)
            },
            Err(_) => None,
        }
    }
}

impl StoreFSTPool {
    /// Restores one bucket from its backup text. The names are those found
    /// on disk, hexadecimal atoms; where they are not, nothing is done
    /// (`Ok(None)`). Otherwise the live graph is closed and taken off the
    /// register, and the encoding of the restored set is returned with its
    /// key, to be written at its permanent path; lines out of strictly
    /// ascending order (a repeated line included) are an error.
    pub fn restore(
        &mut self,
        collection_name: &str,
        bucket_name: &str,
        backup: &[u8],
    ) -> (r: Result<Option<(StoreFSTKey, Vec<u8>)>, RestoreError>)
        requires
            old(self).wf(),
        ensures
            final(self).wf(),
            !(atom_name(collection_name.spec_bytes()) && atom_name(bucket_name.spec_bytes()))
                ==> r == Ok::<Option<(StoreFSTKey, Vec<u8>)>, RestoreError>(None)
                && final(self).graphs@ == old(self).graphs@ && final(self).register@ == old(
                self,
            ).register@,
            ({
                let key = StoreFSTKey::from_atom_spec(
                    hex_number(collection_name.spec_bytes()) as u32,
                    hex_number(bucket_name.spec_bytes()) as u32,
                );
                (atom_name(collection_name.spec_bytes()) && atom_name(bucket_name.spec_bytes()))
                    ==> {
                    &&& final(self).graphs@ == old(self).graphs@.remove(key)
                    &&& final(self).register@ == old(self).register@.remove(key)
                    &&& strictly_ascending(lines_of(backup@)) ==> (r matches Ok(Some((k, bytes)))
                        && k == key && decoded_terms(bytes@) == lines_of(backup@) && sealed(
                        bytes@,
                    ))
                    &&& !strictly_ascending(lines_of(backup@)) ==> r == Err::<
                        Option<(StoreFSTKey, Vec<u8>)>,
                        RestoreError,
                    >(RestoreError::OutOfOrder)
                }
            }),
    {
        let collection = atom_from_hex(collection_name);
        let bucket = atom_from_hex(bucket_name);
        match (collection, bucket) {
            (Some(c), Some(b)) => {
                self.close(c, b);
                let lines = split_lines(backup);
                let key = StoreFSTKey::from_atom(c, b);
                match build_set(&lines) {
                    Ok(bytes) => Ok(Some((key, bytes))),
                    Err(e) => Err(e),
                }
            },
            _ => Ok(None),
        }
    }
}

} // verus!
