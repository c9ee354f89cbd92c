use vstd::prelude::*;

verus! {

use crate::console::prefix_spec;
use crate::console::lemma_spaces_len;
use crate::console::spec_color;
use crate::console::pick_color;
use crate::procfile_parser::EntrySpec;
use crate::procfile_parser::Error;
use crate::procfile_parser::ProcfileEntry;
use crate::procfile_parser::entries_view;
use vstd::string::StrSliceExecFns;
use vstd::string::StringExecFns;

/// The length of the longest name in a manifest; the padding width every
/// worker aligns its prefix column to.
pub open spec fn max_name_len(s: Seq<EntrySpec>) -> nat
    decreases s.len(),
{
    if s.len() == 0 {
        0
    } else {
        let m = max_name_len(s.drop_last());
        if s.last().name.len() > m {
            s.last().name.len()
        } else {
            m
        }
    }
}

/// The padding width bounds every name and is reached by one of them.
pub proof fn lemma_max_name_len(s: Seq<EntrySpec>)
    ensures
        forall|k: int| 0 <= k < s.len() ==> #[trigger] s[k].name.len() <= max_name_len(s),
        s.len() > 0 ==> exists|k: int| 0 <= k < s.len() && #[trigger] s[k].name.len()
            == max_name_len(s),
    decreases s.len(),
{
    if s.len() > 0 {
        lemma_max_name_len(s.drop_last());
        let d = s.drop_last();
        let m = max_name_len(s);
        assert forall|k: int| 0 <= k < s.len() implies #[trigger] s[k].name.len() <= m by {
            if k < s.len() - 1 {
                assert(d[k] == s[k]);
                assert(d[k].name.len() <= max_name_len(d));
            } else {
                assert(s[k] == s.last());
            }
        }
        if s.last().name.len() > max_name_len(d) {
            assert(s[s.len() - 1].name.len() == m);
        } else if s.len() == 1 {
            assert(s[0].name.len() == m);
        } else {
            let j = choose|k: int|
                0 <= k < d.len() && #[trigger] d[k].name.len() == max_name_len(d);
            assert(d[j] == s[j]);
            assert(s[j].name.len() == m);
        }
    }
}

/// Compute the padding width of a manifest: the longest name's length, in
/// characters.
pub fn padding_width(entries: &Vec<ProcfileEntry>) -> (w: usize)
    requires
        entries@.len() > 0,
    ensures
        w as nat == max_name_len(entries_view(entries@)),
{
    let mut w: usize = 0;
    let mut i: usize = 0;
    proof {
        assert(entries_view(entries@).subrange(0, 0) =~= Seq::<EntrySpec>::empty());
    }
    while i < entries.len()
        invariant
            i <= entries@.len(),
            w as nat == max_name_len(entries_view(entries@).subrange(0, i as int)),
        decreases entries@.len() - i,
    {
        let l = entries[i].name.as_str().unicode_len();
        if l > w {
            w = l;
        }
        proof {
            let view = entries_view(entries@);
            assert(view.subrange(0, i as int + 1).drop_last() =~= view.subrange(0, i as int));
            assert(view.subrange(0, i as int + 1).last() == entries@[i as int]@);
        }
        i = i + 1;
    }
    proof {
        assert(entries_view(entries@).subrange(0, entries@.len() as int) =~= entries_view(
            entries@,
        ));
    }
    w
}

/// Alignment: with the padding width of its manifest, every entry's prefix
/// column renders to exactly that width plus the three separator characters,
/// whatever the entry's own name length.
pub proof fn lemma_padding_aligns(entries: Seq<EntrySpec>, k: int)
    requires
        0 <= k < entries.len(),
    ensures
        prefix_spec(entries[k].name, max_name_len(entries)).len() == max_name_len(entries) + 3,
{
    lemma_max_name_len(entries);
    lemma_spaces_len((max_name_len(entries) - entries[k].name.len()) as nat);
    reveal_strlit(" | ");
}

/// One worker's share of a launch: its entry's name and command, and the
/// color its manifest index is assigned.
pub struct WorkerSpec {
    pub name: String,
    pub command: String,
    pub color: u16,
}

/// Lay out a launch: one worker per entry, in manifest order, each assigned
/// the palette color of its index.
pub fn start_plan(entries: Vec<ProcfileEntry>) -> (plan: Vec<WorkerSpec>)
    ensures
        plan@.len() == entries@.len(),
        forall|k: int|
            0 <= k < plan@.len() ==> {
                &&& (#[trigger] plan@[k]).name@ == entries@[k]@.name
                &&& plan@[k].command@ == entries@[k]@.command
                &&& plan@[k].color == spec_color(k)
            },
{
    let ghost orig = entries@;
    let mut rest = entries;
    let mut plan: Vec<WorkerSpec> = Vec::new();
    while rest.len() > 0
        invariant
            plan@.len() + rest@.len() == orig.len(),
            rest@ == orig.subrange(plan@.len() as int, orig.len() as int),
            forall|k: int|
                0 <= k < plan@.len() ==> {
                    &&& (#[trigger] plan@[k]).name@ == orig[k]@.name
                    &&& plan@[k].command@ == orig[k]@.command
                    &&& plan@[k].color == spec_color(k)
                },
        decreases rest@.len(),
    {
        let entry = rest.remove(0);
        let color = pick_color(plan.len());
        proof {
            assert(entry == orig[plan@.len() as int]);
            assert(rest@ =~= orig.subrange(plan@.len() as int + 1, orig.len() as int));
        }
        plan.push(WorkerSpec { name: entry.name, command: entry.command, color });
    }
    plan
}

/// The names of a manifest joined with commas, in order.
pub open spec fn join_names(s: Seq<EntrySpec>) -> Seq<char>
    decreases s.len(),
{
    if s.len() == 0 {
        Seq::empty()
    } else if s.len() == 1 {
        s[0].name
    } else {
        join_names(s.drop_last()) + ", "@ + s.last().name
    }
}

/// What a valid manifest's check reports: the recognized names.
pub open spec fn valid_summary_spec(s: Seq<EntrySpec>) -> Seq<char> {
    "Valid procfile ("@ + join_names(s) + ")"@
}

/// The printed outcome of checking a manifest: the recognized names for one
/// that parses, a fixed notice for one that does not, and nothing for an I/O
/// failure, which the caller surfaces as a failure instead.
pub fn check_summary(r: &Result<Vec<ProcfileEntry>, Error>) -> (out: Option<String>)
    ensures
        r matches Ok(entries) ==> (out matches Some(m) && m@ == valid_summary_spec(
            entries_view(entries@),
        )),
        r matches Err(e) && e is Parsing ==> (out matches Some(m) && m@ == "Invalid procfile"@),
        r matches Err(e) && e is Io ==> out is None,
{
    match r {
        Ok(entries) => {
            let mut msg = String::from_str("Valid procfile (");
            let mut i: usize = 0;
            proof {
                assert(entries_view(entries@).subrange(0, 0) =~= Seq::<EntrySpec>::empty());
                assert(msg@ + join_names(entries_view(entries@).subrange(0, 0)) =~= msg@);
            }
            while i < entries.len()
                invariant
                    i <= entries@.len(),
                    msg@ == "Valid procfile ("@ + join_names(
                        entries_view(entries@).subrange(0, i as int),
                    ),
                decreases entries@.len() - i,
            {
                if i > 0 {
                    msg.append(", ");
                }
                msg.append(entries[i].name.as_str());
                proof {
                    let view = entries_view(entries@);
                    assert(view.subrange(0, i as int + 1).drop_last() =~= view.subrange(
                        0,
                        i as int,
                    ));
                    assert(view.subrange(0, i as int + 1).last() == entries@[i as int]@);
                    assert(msg@ =~= "Valid procfile ("@ + join_names(
                        view.subrange(0, i as int + 1),
                    ));
                }
                i = i + 1;
            }
            msg.append(")");
            proof {
                assert(entries_view(entries@).subrange(0, entries@.len() as int) =~= entries_view(
                    entries@,
                ));
                assert(msg@ =~= valid_summary_spec(entries_view(entries@)));
            }
            Some(msg)
        },
        Err(Error::Parsing) => Some(String::from_str("Invalid procfile")),
        Err(Error::Io(_)) => None,
    }
}

} // verus!
