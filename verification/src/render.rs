//! The rendering pipeline: entries plus parsed options in, one output string
//! out, with the column widths of the long layout computed across entries.

use vstd::prelude::*;
use crate::entry::{Entry, MetaInfo, fresh_entry, load_rel, size_field_text};
use crate::error::Error;
use crate::human::human_str;
use crate::options::{
    SubOption,
    ParseOutcome,
    parse_args_spec,
    parse_options,
    is_subopt_error,
    distinct_opts,
    lemma_parse_args_distinct,
};
use crate::sort::{sort_by_time, sort_post, time_eq, all_have_mtime, is_perm};
use crate::strutil::{count_char, dec_str, lemma_count_char_add, pad_right, push_spaces, u64_to_string};
use crate::timefmt::{timestamp_text, format_timestamp};

verus! {

/// The pipeline's state: the children in their current order, the options in
/// parse order, and the five column widths of the long layout.
#[derive(Debug)]
pub struct Render {
    pub entries: Vec<Entry>,
    pub sub_options: Vec<SubOption>,
    pub max_user_len: usize,
    pub max_group_len: usize,
    pub max_size_len: usize,
    pub max_size_format_len: usize,
    pub max_count_len: usize,
}

/// The widest owner string over the entries.
pub open spec fn max_user(entries: Seq<Entry>) -> nat
    decreases entries.len(),
{
    if entries.len() == 0 {
        0
    } else {
        let rest = max_user(entries.drop_last());
        let l = entries.last().user_name@.len();
        if l > rest {
            l
        } else {
            rest
        }
    }
}

/// The widest group string over the entries.
pub open spec fn max_group(entries: Seq<Entry>) -> nat
    decreases entries.len(),
{
    if entries.len() == 0 {
        0
    } else {
        let rest = max_group(entries.drop_last());
        let l = entries.last().group_name@.len();
        if l > rest {
            l
        } else {
            rest
        }
    }
}

/// The widest child-count numeral over the entries.
pub open spec fn max_count(entries: Seq<Entry>) -> nat
    decreases entries.len(),
{
    if entries.len() == 0 {
        0
    } else {
        let rest = max_count(entries.drop_last());
        let l = dec_str(entries.last().files_number as nat).len();
        if l > rest {
            l
        } else {
            rest
        }
    }
}

/// The widest byte-count numeral over the entries.
pub open spec fn max_size(entries: Seq<Entry>) -> nat
    decreases entries.len(),
{
    if entries.len() == 0 {
        0
    } else {
        let rest = max_size(entries.drop_last());
        let l = dec_str(entries.last().size as nat).len();
        if l > rest {
            l
        } else {
            rest
        }
    }
}

/// The widest human-readable size over the entries.
pub open spec fn max_size_format(entries: Seq<Entry>) -> nat
    decreases entries.len(),
{
    if entries.len() == 0 {
        0
    } else {
        let rest = max_size_format(entries.drop_last());
        let l = entries.last().size_format@.len();
        if l > rest {
            l
        } else {
            rest
        }
    }
}

/// One long-layout row: permission field, then the padded count, owner and
/// group columns, the size column, the timestamp, and the name, separated by
/// single spaces.
pub open spec fn long_row_text(e: Entry, mc: int, mu: int, mg: int, msf: int, msl: int) -> Seq<
    char,
> {
    e.file_permission@ + seq![' '] + pad_right(dec_str(e.files_number as nat), mc) + seq![' ']
        + pad_right(e.user_name@, mu) + seq![' '] + pad_right(e.group_name@, mg) + seq![' ']
        + size_field_text(e, msf, msl) + seq![' '] + timestamp_text(e.update_time as int)
        + seq![' '] + e.file_name@
}

/// One emitted row: the long form above, or just the name.
pub open spec fn row_text(e: Entry, long: bool, mc: int, mu: int, mg: int, msf: int, msl: int) -> Seq<
    char,
> {
    if long {
        long_row_text(e, mc, mu, mg, msf, msl)
    } else {
        e.file_name@
    }
}

/// The entries that are emitted, in order.
pub open spec fn displayed(entries: Seq<Entry>) -> Seq<Entry> {
    entries.filter(|e: Entry| e.display)
}

/// The separator between emitted rows.
pub open spec fn sep(long: bool) -> Seq<char> {
    if long {
        seq!['\n']
    } else {
        seq![' ', ' ']
    }
}

/// The parts joined by the separator, nothing before the first or after the
/// last.
pub open spec fn join_with(parts: Seq<Seq<char>>, sep: Seq<char>) -> Seq<char>
    decreases parts.len(),
{
    if parts.len() == 0 {
        Seq::empty()
    } else if parts.len() == 1 {
        parts[0]
    } else {
        parts[0] + sep + join_with(parts.drop_first(), sep)
    }
}

/// The whole output: the displayed entries' rows joined by the layout's
/// separator, then one newline.
pub open spec fn output_text(
    entries: Seq<Entry>,
    long: bool,
    mc: int,
    mu: int,
    mg: int,
    msf: int,
    msl: int,
) -> Seq<char> {
    join_with(
        displayed(entries).map_values(|e: Entry| row_text(e, long, mc, mu, mg, msf, msl)),
        sep(long),
    ) + seq!['\n']
}

/// What every `Render` satisfies: child counts are non-negative and the
/// parsed options are duplicate-free.
pub open spec fn render_wf(r: Render) -> bool {
    &&& forall|k: int| 0 <= k < r.entries@.len() ==> #[trigger] r.entries@[k].files_number >= 0
    &&& distinct_opts(r.sub_options@)
}

/// Appending one more part to a join adds a separator exactly when the join
/// was not empty of parts.
pub proof fn lemma_join_push(parts: Seq<Seq<char>>, s: Seq<char>, x: Seq<char>)
    ensures
        join_with(parts.push(x), s) == if parts.len() == 0 {
            x
        } else {
            join_with(parts, s) + s + x
        },
    decreases parts.len(),
{
    let whole = parts.push(x);
    if parts.len() == 0 {
        assert(whole.len() == 1);
        assert(join_with(whole, s) == whole[0]);
        assert(whole[0] == x);
    } else {
        assert(whole[0] == parts[0]);
        assert(whole.drop_first() =~= parts.drop_first().push(x));
        lemma_join_push(parts.drop_first(), s, x);
        if parts.len() == 1 {
            assert(join_with(whole, s) == parts[0] + s + x);
            assert(join_with(parts, s) == parts[0]);
        } else {
            assert(join_with(whole, s) == parts[0] + s + (join_with(parts.drop_first(), s) + s
                + x));
            assert(parts[0] + s + (join_with(parts.drop_first(), s) + s + x) =~= (parts[0] + s
                + join_with(parts.drop_first(), s)) + s + x);
        }
    }
}

/// Whether the option list holds `o`.
pub open spec fn has_opt(opts: Seq<SubOption>, o: SubOption) -> bool {
    opts.contains(o)
}

/// How the applied options transform one entry: `-a` forces visibility on,
/// `-h` fills the human-readable size, nothing else changes.
pub open spec fn option_applied_rel(pre: Entry, post: Entry, all: bool, human: bool) -> bool {
    &&& post == (Entry { display: post.display, size_format: post.size_format, ..pre })
    &&& post.display == (pre.display || all)
    &&& if human {
        post.size_format@ == human_str(pre.size as nat)
    } else {
        post.size_format == pre.size_format
    }
}

/// The promise `start` makes about the final entry order, with `p` mapping
/// final positions to source positions: a permutation under the per-entry
/// option transform; the identity when `-t` is absent; and, with `-t`, source
/// order kept for every comparator-equal pair and a newest-first result
/// whenever every entry has a timestamp.
pub open spec fn start_order_witness(
    pre: Seq<Entry>,
    post: Seq<Entry>,
    opts: Seq<SubOption>,
    p: Seq<int>,
) -> bool {
    &&& is_perm(p, pre.len())
    &&& post.len() == pre.len()
    &&& forall|k: int|
        0 <= k < post.len() ==> option_applied_rel(
            pre[#[trigger] p[k]],
            post[k],
            has_opt(opts, SubOption::All),
            has_opt(opts, SubOption::HumanRead),
        )
    &&& !has_opt(opts, SubOption::Time) ==> p == Seq::new(pre.len(), |k: int| k)
    &&& has_opt(opts, SubOption::Time) ==> (forall|k1: int, k2: int|
        0 <= k1 < k2 < post.len() && time_eq(pre[#[trigger] p[k1]], pre[#[trigger] p[k2]])
            ==> p[k1] < p[k2])
    &&& (has_opt(opts, SubOption::Time) && all_have_mtime(pre)) ==> (forall|k1: int, k2: int|
        0 <= k1 < k2 < post.len() ==> post[k1].update_time >= post[k2].update_time)
}

pub open spec fn start_order_post(pre: Seq<Entry>, post: Seq<Entry>, opts: Seq<SubOption>) -> bool {
    exists|p: Seq<int>| start_order_witness(pre, post, opts, p)
}

proof fn lemma_has_opt_push(s: Seq<SubOption>, x: SubOption, o: SubOption)
    ensures
        has_opt(s.push(x), o) == (has_opt(s, o) || o == x),
{
    if has_opt(s, o) {
        let i = choose|i: int| 0 <= i < s.len() && s[i] == o;
        assert(s.push(x)[i] == o);
    }
    if o == x {
        assert(s.push(x)[s.len() as int] == o);
    }
    if has_opt(s.push(x), o) {
        let i = choose|i: int| 0 <= i < s.push(x).len() && s.push(x)[i] == o;
        if i < s.len() {
            assert(s[i] == o);
        }
    }
}

/// Sets the visibility flag on every entry.
fn apply_all(entries: &mut Vec<Entry>)
    ensures
        final (entries)@.len() == old(entries)@.len(),
        forall|k: int|
            0 <= k < old(entries)@.len() ==> #[trigger] final (entries)@[k] == (Entry {
                display: true,
                ..old(entries)@[k]
            }),
{
    let n = entries.len();
    let mut i: usize = 0;
    while i < n
        invariant
            i <= n,
            n == entries@.len(),
            forall|k: int|
                0 <= k < i ==> #[trigger] entries@[k] == (Entry {
                    display: true,
                    ..old(entries)@[k]
                }),
            forall|k: int| i <= k < n ==> #[trigger] entries@[k] == old(entries)@[k],
        decreases n - i,
    {
        let ghost before = entries@;
        let mut e = entries.remove(i);
        e.display = true;
        entries.insert(i, e);
        proof {
            assert(entries@ =~= before.update(i as int, e));
        }
        i = i + 1;
    }
}

/// Fills the human-readable size of every entry.
fn apply_human(entries: &mut Vec<Entry>)
    ensures
        final (entries)@.len() == old(entries)@.len(),
        forall|k: int|
            0 <= k < old(entries)@.len() ==> (#[trigger] final (entries)@[k] == (Entry {
                size_format: final (entries)@[k].size_format,
                ..old(entries)@[k]
            }) && final (entries)@[k].size_format@ == human_str(old(entries)@[k].size as nat)),
{
    let n = entries.len();
    let mut i: usize = 0;
    while i < n
        invariant
            i <= n,
            n == entries@.len(),
            forall|k: int|
                0 <= k < i ==> (#[trigger] entries@[k] == (Entry {
                    size_format: entries@[k].size_format,
                    ..old(entries)@[k]
                }) && entries@[k].size_format@ == human_str(old(entries)@[k].size as nat)),
            forall|k: int| i <= k < n ==> #[trigger] entries@[k] == old(entries)@[k],
        decreases n - i,
    {
        let ghost before = entries@;
        let mut e = entries.remove(i);
        e.format_entry_size();
        entries.insert(i, e);
        proof {
            assert(entries@ =~= before.update(i as int, e));
        }
        i = i + 1;
    }
}

impl Render {
    /// Parses the argument vector and creates one fresh entry per child
    /// name; the first offending option character is reported instead.
    pub fn init(args: Vec<String>, file_names: Vec<String>) -> (r: Result<Render, Error>)
        ensures
            match parse_args_spec(args.deep_view()) {
                ParseOutcome::Parsed { opts } => r matches Ok(rd) && {
                    &&& rd.sub_options@ == opts
                    &&& rd.entries@.len() == file_names@.len()
                    &&& forall|k: int|
                        0 <= k < file_names@.len() ==> fresh_entry(
                            #[trigger] rd.entries@[k],
                            file_names@[k],
                        )
                    &&& rd.max_user_len == 0
                    &&& rd.max_group_len == 0
                    &&& rd.max_size_len == 0
                    &&& rd.max_size_format_len == 0
                    &&& rd.max_count_len == 0
                    &&& render_wf(rd)
                },
                ParseOutcome::Failed { opt, duplicated } => r matches Err(e) && is_subopt_error(
                    e,
                    opt,
                    duplicated,
                ),
            },
    {
        let sub_options = match parse_options(&args) {
            Ok(o) => o,
            Err(e) => {
                return Err(e);
            },
        };
        proof {
            lemma_parse_args_distinct(args.deep_view());
        }
        let ghost fnames = file_names@;
        let mut names = file_names;
        let mut entries: Vec<Entry> = Vec::new();
        while names.len() > 0
            invariant
                entries@.len() + names@.len() == fnames.len(),
                names@ == fnames.skip(entries@.len() as int),
                forall|k: int|
                    0 <= k < entries@.len() ==> fresh_entry(#[trigger] entries@[k], fnames[k]),
            decreases names@.len(),
        {
            let nm = names.remove(0);
            proof {
                assert(nm == fnames[entries@.len() as int]);
                assert(names@ =~= fnames.skip(entries@.len() as int + 1));
            }
            let e = Entry::new(nm);
            entries.push(e);
        }
        let r = Render {
            entries,
            sub_options,
            max_user_len: 0,
            max_group_len: 0,
            max_size_len: 0,
            max_size_format_len: 0,
            max_count_len: 0,
        };
        proof {
            assert(forall|k: int|
                0 <= k < r.entries@.len() ==> #[trigger] r.entries@[k].files_number >= 0);
        }
        Ok(r)
    }

    /// Applies one metadata read per entry, in order; `None` stands for a
    /// failed read and leaves that entry untouched.
    pub fn load_file_info(&mut self, infos: Vec<Option<MetaInfo>>)
        requires
            render_wf(*old(self)),
            infos@.len() == old(self).entries@.len(),
            forall|k: int|
                0 <= k < infos@.len() ==> (#[trigger] infos@[k] matches Some(m) ==> m.child_count
                    >= 0),
        ensures
            final (self).entries@.len() == old(self).entries@.len(),
            forall|k: int|
                0 <= k < infos@.len() ==> load_rel(
                    old(self).entries@[k],
                    infos@[k],
                    #[trigger] final (self).entries@[k],
                ),
            final (self).sub_options == old(self).sub_options,
            final (self).max_user_len == old(self).max_user_len,
            final (self).max_group_len == old(self).max_group_len,
            final (self).max_size_len == old(self).max_size_len,
            final (self).max_size_format_len == old(self).max_size_format_len,
            final (self).max_count_len == old(self).max_count_len,
            render_wf(*final (self)),
    {
        let n = self.entries.len();
        let mut i: usize = 0;
        while i < n
            invariant
                i <= n,
                n == old(self).entries@.len(),
                self.entries@.len() == n,
                infos@.len() == n,
                forall|k: int|
                    0 <= k < infos@.len() ==> (#[trigger] infos@[k] matches Some(m)
                        ==> m.child_count >= 0),
                forall|k: int|
                    0 <= k < i ==> load_rel(
                        old(self).entries@[k],
                        infos@[k],
                        #[trigger] self.entries@[k],
                    ),
                forall|k: int| i <= k < n ==> self.entries@[k] == old(self).entries@[k],
                self.sub_options == old(self).sub_options,
                self.max_user_len == old(self).max_user_len,
                self.max_group_len == old(self).max_group_len,
                self.max_size_len == old(self).max_size_len,
                self.max_size_format_len == old(self).max_size_format_len,
                self.max_count_len == old(self).max_count_len,
                render_wf(*old(self)),
            decreases n - i,
        {
            let ghost before = self.entries@;
            let mut e = self.entries.remove(i);
            let info = infos[i];
            e.load_info(info);
            self.entries.insert(i, e);
            proof {
                assert(self.entries@ =~= before.update(i as int, e));
            }
            i = i + 1;
        }
        proof {
            assert forall|k: int| 0 <= k < self.entries@.len() implies #[trigger] self.entries@[k].files_number
                >= 0 by {
                assert(load_rel(old(self).entries@[k], infos@[k], self.entries@[k]));
            }
        }
    }

    /// Computes the five column widths over the entries as they stand.
    pub fn extract_max_info_for_entries(&mut self)
        requires
            render_wf(*old(self)),
        ensures
            *final (self) == (Render {
                max_user_len: final (self).max_user_len,
                max_group_len: final (self).max_group_len,
                max_size_len: final (self).max_size_len,
                max_size_format_len: final (self).max_size_format_len,
                max_count_len: final (self).max_count_len,
                ..*old(self)
            }),
            final (self).max_user_len == max_user(old(self).entries@),
            final (self).max_group_len == max_group(old(self).entries@),
            final (self).max_size_len == max_size(old(self).entries@),
            final (self).max_size_format_len == max_size_format(old(self).entries@),
            final (self).max_count_len == max_count(old(self).entries@),
    {
        let n = self.entries.len();
        let mut mu: usize = 0;
        let mut mg: usize = 0;
        let mut ms: usize = 0;
        let mut msf: usize = 0;
        let mut mc: usize = 0;
        let mut i: usize = 0;
        while i < n
            invariant
                i <= n,
                n == self.entries@.len(),
                render_wf(*self),
                mu == max_user(self.entries@.take(i as int)),
                mg == max_group(self.entries@.take(i as int)),
                ms == max_size(self.entries@.take(i as int)),
                msf == max_size_format(self.entries@.take(i as int)),
                mc == max_count(self.entries@.take(i as int)),
            decreases n - i,
        {
            let e = &self.entries[i];
            let ul = e.user_name.as_str().unicode_len();
            if ul > mu {
                mu = ul;
            }
            let gl = e.group_name.as_str().unicode_len();
            if gl > mg {
                mg = gl;
            }
            let cnum = u64_to_string(e.files_number as u64);
            let cl = cnum.as_str().unicode_len();
            if cl > mc {
                mc = cl;
            }
            let snum = u64_to_string(e.size);
            let sl = snum.as_str().unicode_len();
            if sl > ms {
                ms = sl;
            }
            let fl = e.size_format.as_str().unicode_len();
            if fl > msf {
                msf = fl;
            }
            proof {
                let t1 = self.entries@.take(i + 1);
                assert(t1.drop_last() =~= self.entries@.take(i as int));
                assert(t1.last() == self.entries@[i as int]);
            }
            i = i + 1;
        }
        proof {
            assert(self.entries@.take(n as int) =~= self.entries@);
        }
        self.max_user_len = mu;
        self.max_group_len = mg;
        self.max_size_len = ms;
        self.max_size_format_len = msf;
        self.max_count_len = mc;
    }

    /// The owner column: the name right-padded to the owner column width.
    pub fn format_user_name(&self, user: String) -> (r: String)
        ensures
            r@ == pad_right(user@, self.max_user_len as int),
    {
        let l = user.as_str().unicode_len();
        let mut u = user;
        if l < self.max_user_len {
            push_spaces(&mut u, self.max_user_len - l);
        }
        u
    }

    /// The group column: the name right-padded to the group column width.
    pub fn format_group_name(&self, group: String) -> (r: String)
        ensures
            r@ == pad_right(group@, self.max_group_len as int),
    {
        let l = group.as_str().unicode_len();
        let mut g = group;
        if l < self.max_group_len {
            push_spaces(&mut g, self.max_group_len - l);
        }
        g
    }

    /// The count column: the child count right-padded to its column width.
    pub fn format_file_count(&self, count: i32) -> (r: String)
        requires
            count >= 0,
        ensures
            r@ == pad_right(dec_str(count as nat), self.max_count_len as int),
    {
        let mut cs = u64_to_string(count as u64);
        let l = cs.as_str().unicode_len();
        if l < self.max_count_len {
            push_spaces(&mut cs, self.max_count_len - l);
        }
        cs
    }

    /// One emitted row for the entry at `i`, under the current widths.
    fn build_row(&self, i: usize, long: bool) -> (r: String)
        requires
            i < self.entries@.len(),
            self.entries@[i as int].files_number >= 0,
        ensures
            r@ == row_text(
                self.entries@[i as int],
                long,
                self.max_count_len as int,
                self.max_user_len as int,
                self.max_group_len as int,
                self.max_size_format_len as int,
                self.max_size_len as int,
            ),
    {
        let e = &self.entries[i];
        if !long {
            return e.file_name.clone();
        }
        proof {
            reveal_strlit(" ");
        }
        let mut s = e.file_permission.clone();
        s.append(" ");
        let count_col = self.format_file_count(e.files_number);
        s.append(count_col.as_str());
        s.append(" ");
        let user_col = self.format_user_name(e.user_name.clone());
        s.append(user_col.as_str());
        s.append(" ");
        let group_col = self.format_group_name(e.group_name.clone());
        s.append(group_col.as_str());
        s.append(" ");
        let sf_len = e.size_format.as_str().unicode_len();
        if sf_len > 0 {
            if sf_len < self.max_size_format_len {
                let mut pad = String::new();
                push_spaces(&mut pad, self.max_size_format_len - sf_len);
                s.append(pad.as_str());
            }
            s.append(e.size_format.as_str());
        } else {
            let snum = u64_to_string(e.size);
            let sl = snum.as_str().unicode_len();
            if sl < self.max_size_len {
                let mut pad = String::new();
                push_spaces(&mut pad, self.max_size_len - sl);
                s.append(pad.as_str());
            }
            s.append(snum.as_str());
        }
        s.append(" ");
        let time_col = format_timestamp(e.update_time);
        s.append(time_col.as_str());
        s.append(" ");
        s.append(e.file_name.as_str());
        proof {
            assert(" "@ =~= seq![' ']);
            assert(s@ =~= long_row_text(
                *e,
                self.max_count_len as int,
                self.max_user_len as int,
                self.max_group_len as int,
                self.max_size_format_len as int,
                self.max_size_len as int,
            ));
        }
        s
    }

    /// Runs the pipeline: applies each parsed option in order, computes the
    /// column widths when the long layout was selected, and returns the
    /// whole output, one trailing newline included.
    pub fn start(&mut self) -> (out: String)
        requires
            render_wf(*old(self)),
        ensures
            final (self).sub_options == old(self).sub_options,
            start_order_post(old(self).entries@, final (self).entries@, old(self).sub_options@),
            ({
                let long = has_opt(old(self).sub_options@, SubOption::Long);
                &&& long ==> final (self).max_user_len == max_user(final (self).entries@)
                    && final (self).max_group_len == max_group(final (self).entries@)
                    && final (self).max_size_len == max_size(final (self).entries@)
                    && final (self).max_size_format_len == max_size_format(final (self).entries@)
                    && final (self).max_count_len == max_count(final (self).entries@)
                &&& !long ==> final (self).max_user_len == old(self).max_user_len
                    && final (self).max_group_len == old(self).max_group_len
                    && final (self).max_size_len == old(self).max_size_len
                    && final (self).max_size_format_len == old(self).max_size_format_len
                    && final (self).max_count_len == old(self).max_count_len
                &&& out@ == output_text(
                    final (self).entries@,
                    long,
                    final (self).max_count_len as int,
                    final (self).max_user_len as int,
                    final (self).max_group_len as int,
                    final (self).max_size_format_len as int,
                    final (self).max_size_len as int,
                )
            }),
    {
        let ghost pre = self.entries@;
        let ghost opts = self.sub_options@;
        let n_opts = self.sub_options.len();
        let mut output_long_info = false;
        let ghost mut p: Seq<int> = Seq::new(pre.len(), |k: int| k);
        proof {
            assert(opts.take(0) =~= Seq::<SubOption>::empty());
            assert(start_order_witness(pre, self.entries@, opts.take(0), p));
        }
        let mut oi: usize = 0;
        while oi < n_opts
            invariant
                oi <= n_opts,
                n_opts == opts.len(),
                self.sub_options == old(self).sub_options,
                self.sub_options@ == opts,
                distinct_opts(opts),
                pre == old(self).entries@,
                start_order_witness(pre, self.entries@, opts.take(oi as int), p),
                output_long_info == has_opt(opts.take(oi as int), SubOption::Long),
                self.max_user_len == old(self).max_user_len,
                self.max_group_len == old(self).max_group_len,
                self.max_size_len == old(self).max_size_len,
                self.max_size_format_len == old(self).max_size_format_len,
                self.max_count_len == old(self).max_count_len,
                render_wf(*old(self)),
            decreases n_opts - oi,
        {
            let ghost prefix = opts.take(oi as int);
            let ghost prefix1 = opts.take(oi as int + 1);
            let o = self.sub_options[oi];
            proof {
                assert(prefix1 =~= prefix.push(o));
                lemma_has_opt_push(prefix, o, SubOption::All);
                lemma_has_opt_push(prefix, o, SubOption::Long);
                lemma_has_opt_push(prefix, o, SubOption::Time);
                lemma_has_opt_push(prefix, o, SubOption::HumanRead);
            }
            let ghost all_before = has_opt(prefix, SubOption::All);
            let ghost human_before = has_opt(prefix, SubOption::HumanRead);
            match o {
                SubOption::All => {
                    let ghost cur = self.entries@;
                    apply_all(&mut self.entries);
                    proof {
                        assert forall|k: int| 0 <= k < self.entries@.len() implies
                            option_applied_rel(
                            pre[#[trigger] p[k]],
                            self.entries@[k],
                            true,
                            human_before,
                        ) by {
                            assert(option_applied_rel(pre[p[k]], cur[k], all_before, human_before));
                            assert(self.entries@[k] == (Entry { display: true, ..cur[k] }));
                        }
                        assert(start_order_witness(pre, self.entries@, prefix1, p));
                    }
                },
                SubOption::Long => {
                    output_long_info = true;
                    proof {
                        assert(start_order_witness(pre, self.entries@, prefix1, p));
                    }
                },
                SubOption::Time => {
                    proof {
                        assert(!has_opt(prefix, SubOption::Time)) by {
                            if has_opt(prefix, SubOption::Time) {
                                let ix = choose|ix: int|
                                    0 <= ix < prefix.len() && prefix[ix] == SubOption::Time;
                                assert(opts[ix] == SubOption::Time);
                                assert(opts[oi as int] == SubOption::Time);
                            }
                        }
                        assert(p == Seq::new(pre.len(), |k: int| k));
                    }
                    let ghost cur = self.entries@;
                    let ghost p0 = p;
                    let q = sort_by_time(&mut self.entries);
                    proof {
                        let qs = q@;
                        assert(sort_post(cur, self.entries@, qs));
                        p = qs;
                        assert forall|k: int| 0 <= k < self.entries@.len() implies
                            option_applied_rel(
                            pre[#[trigger] qs[k]],
                            self.entries@[k],
                            all_before,
                            human_before,
                        ) by {
                            assert(0 <= qs[k] < cur.len());
                            assert(option_applied_rel(
                                pre[p0[qs[k]]],
                                cur[qs[k]],
                                all_before,
                                human_before,
                            ));
                            assert(p0[qs[k]] == qs[k]);
                            assert(self.entries@[k] == cur[qs[k]]);
                        }
                        assert forall|k1: int, k2: int|
                            0 <= k1 < k2 < self.entries@.len() && time_eq(
                                pre[#[trigger] qs[k1]],
                                pre[#[trigger] qs[k2]],
                            ) implies qs[k1] < qs[k2] by {
                            assert(0 <= qs[k1] < cur.len());
                            assert(0 <= qs[k2] < cur.len());
                            assert(option_applied_rel(
                                pre[p0[qs[k1]]],
                                cur[qs[k1]],
                                all_before,
                                human_before,
                            ));
                            assert(option_applied_rel(
                                pre[p0[qs[k2]]],
                                cur[qs[k2]],
                                all_before,
                                human_before,
                            ));
                            assert(p0[qs[k1]] == qs[k1]);
                            assert(p0[qs[k2]] == qs[k2]);
                            assert(self.entries@[k1] == cur[qs[k1]]);
                            assert(self.entries@[k2] == cur[qs[k2]]);
                            assert(time_eq(self.entries@[k1], self.entries@[k2]));
                        }
                        if all_have_mtime(pre) {
                            assert forall|k: int| 0 <= k < cur.len() implies #[trigger] cur[k].has_mtime by {
                                assert(option_applied_rel(
                                    pre[p0[k]],
                                    cur[k],
                                    all_before,
                                    human_before,
                                ));
                                assert(pre[p0[k]].has_mtime);
                            }
                            assert(all_have_mtime(cur));
                        }
                        assert(start_order_witness(pre, self.entries@, prefix1, p));
                    }
                },
                SubOption::HumanRead => {
                    let ghost cur = self.entries@;
                    apply_human(&mut self.entries);
                    proof {
                        assert forall|k: int| 0 <= k < self.entries@.len() implies
                            option_applied_rel(
                            pre[#[trigger] p[k]],
                            self.entries@[k],
                            all_before,
                            true,
                        ) by {
                            assert(option_applied_rel(pre[p[k]], cur[k], all_before, human_before));
                            assert(self.entries@[k] == (Entry {
                                size_format: self.entries@[k].size_format,
                                ..cur[k]
                            }));
                            assert(self.entries@[k].size_format@ == human_str(cur[k].size as nat));
                            assert(cur[k].size == pre[p[k]].size);
                        }
                        if has_opt(prefix1, SubOption::Time) && all_have_mtime(pre) {
                            assert forall|k1: int, k2: int|
                                0 <= k1 < k2 < self.entries@.len() implies
                                self.entries@[k1].update_time >= self.entries@[k2].update_time by {
                                assert(self.entries@[k1].update_time == cur[k1].update_time);
                                assert(self.entries@[k2].update_time == cur[k2].update_time);
                            }
                        }
                        assert(start_order_witness(pre, self.entries@, prefix1, p));
                    }
                },
            }
            oi = oi + 1;
        }
        proof {
            assert(opts.take(n_opts as int) =~= opts);
        }
        proof {
            assert forall|k: int| 0 <= k < self.entries@.len() implies #[trigger] self.entries@[k].files_number
                >= 0 by {
                assert(0 <= p[k] < pre.len());
                assert(option_applied_rel(
                    pre[p[k]],
                    self.entries@[k],
                    has_opt(opts, SubOption::All),
                    has_opt(opts, SubOption::HumanRead),
                ));
                assert(pre[p[k]].files_number >= 0);
            }
            assert(render_wf(*self));
        }
        if output_long_info {
            self.extract_max_info_for_entries();
            proof {
                assert(render_wf(*self));
            }
        }
        let long = output_long_info;
        let ghost fin = self.entries@;
        let ghost mc = self.max_count_len as int;
        let ghost mu = self.max_user_len as int;
        let ghost mg = self.max_group_len as int;
        let ghost msf = self.max_size_format_len as int;
        let ghost msl = self.max_size_len as int;
        let ghost rowfn = |e: Entry| row_text(e, long, mc, mu, mg, msf, msl);
        let mut out = String::new();
        let mut emitted = false;
        let n = self.entries.len();
        proof {
            reveal(Seq::filter);
            assert(fin.take(0) =~= Seq::<Entry>::empty());
            assert(displayed(fin.take(0)) =~= Seq::<Entry>::empty());
            assert(displayed(fin.take(0)).map_values(rowfn) =~= Seq::<Seq<char>>::empty());
        }
        let mut i: usize = 0;
        while i < n
            invariant
                i <= n,
                n == self.entries@.len(),
                fin == self.entries@,
                render_wf(*self),
                long == output_long_info,
                mc == self.max_count_len as int,
                mu == self.max_user_len as int,
                mg == self.max_group_len as int,
                msf == self.max_size_format_len as int,
                msl == self.max_size_len as int,
                rowfn == (|e: Entry| row_text(e, long, mc, mu, mg, msf, msl)),
                emitted == (displayed(fin.take(i as int)).len() > 0),
                out@ == join_with(displayed(fin.take(i as int)).map_values(rowfn), sep(long)),
            decreases n - i,
        {
            let ghost dpref = displayed(fin.take(i as int));
            proof {
                reveal(Seq::filter);
                assert(fin.take(i as int + 1).drop_last() =~= fin.take(i as int));
                assert(fin.take(i as int + 1).last() == fin[i as int]);
                assert(displayed(fin.take(i as int + 1)) == if fin[i as int].display {
                    dpref.push(fin[i as int])
                } else {
                    dpref
                });
            }
            let e_display = self.entries[i].display;
            if e_display {
                if emitted {
                    if long {
                        out.append("\n");
                        proof {
                            reveal_strlit("\n");
                            assert("\n"@ =~= sep(true));
                        }
                    } else {
                        out.append("  ");
                        proof {
                            reveal_strlit("  ");
                            assert("  "@ =~= sep(false));
                        }
                    }
                }
                let row = self.build_row(i, long);
                out.append(row.as_str());
                proof {
                    assert(dpref.push(fin[i as int]).map_values(rowfn) =~= dpref.map_values(
                        rowfn,
                    ).push(rowfn(fin[i as int])));
                    lemma_join_push(dpref.map_values(rowfn), sep(long), rowfn(fin[i as int]));
                    assert(row@ == rowfn(fin[i as int]));
                    assert(out@ =~= join_with(
                        displayed(fin.take(i as int + 1)).map_values(rowfn),
                        sep(long),
                    ));
                }
                emitted = true;
            }
            i = i + 1;
        }
        out.append("\n");
        proof {
            reveal_strlit("\n");
            assert(fin.take(n as int) =~= fin);
            assert(out@ =~= output_text(fin, long, mc, mu, mg, msf, msl));
        }
        out
    }
}

/// Each entry's rendered fields fit inside the maxima computed over the
/// whole sequence.
pub proof fn lemma_max_bounds(entries: Seq<Entry>, k: int)
    requires
        0 <= k < entries.len(),
    ensures
        entries[k].user_name@.len() <= max_user(entries),
        entries[k].group_name@.len() <= max_group(entries),
        dec_str(entries[k].files_number as nat).len() <= max_count(entries),
        dec_str(entries[k].size as nat).len() <= max_size(entries),
        entries[k].size_format@.len() <= max_size_format(entries),
    decreases entries.len(),
{
    if k < entries.len() - 1 {
        lemma_max_bounds(entries.drop_last(), k);
    }
}

/// In the long layout the count, owner and group columns of a row are
/// exactly their computed maxima wide, and the size column is exactly the
/// human-size maximum wide when the human form is present and the raw-size
/// maximum wide otherwise.
pub proof fn lemma_long_row_column_widths(e: Entry, mc: nat, mu: nat, mg: nat, msf: nat, msl: nat)
    requires
        dec_str(e.files_number as nat).len() <= mc,
        e.user_name@.len() <= mu,
        e.group_name@.len() <= mg,
        e.size_format@.len() <= msf,
        dec_str(e.size as nat).len() <= msl,
    ensures
        pad_right(dec_str(e.files_number as nat), mc as int).len() == mc,
        pad_right(e.user_name@, mu as int).len() == mu,
        pad_right(e.group_name@, mg as int).len() == mg,
        size_field_text(e, msf as int, msl as int).len() == (if e.size_format@.len() > 0 {
            msf
        } else {
            msl
        }),
{
    crate::strutil::lemma_pad_right_len(dec_str(e.files_number as nat), mc as int);
    crate::strutil::lemma_pad_right_len(e.user_name@, mu as int);
    crate::strutil::lemma_pad_right_len(e.group_name@, mg as int);
    crate::strutil::lemma_pad_left_len(e.size_format@, msf as int);
    crate::strutil::lemma_pad_left_len(dec_str(e.size as nat), msl as int);
}

/// After `start`, every entry's `size_format` is non-empty exactly when
/// `-h` was among the parsed options — provided each entry began with an
/// empty one, as entries fresh from `init` and `load_file_info` do.
pub proof fn lemma_size_format_iff_human(pre: Seq<Entry>, post: Seq<Entry>, opts: Seq<SubOption>)
    requires
        start_order_post(pre, post, opts),
        forall|k: int| 0 <= k < pre.len() ==> #[trigger] pre[k].size_format@.len() == 0,
    ensures
        forall|k: int|
            0 <= k < post.len() ==> (#[trigger] post[k].size_format@.len() > 0 <==> has_opt(
                opts,
                SubOption::HumanRead,
            )),
{
    let p = choose|p: Seq<int>| start_order_witness(pre, post, opts, p);
    assert forall|k: int| 0 <= k < post.len() implies (#[trigger] post[k].size_format@.len() > 0
        <==> has_opt(opts, SubOption::HumanRead)) by {
        assert(0 <= p[k] < pre.len());
        assert(option_applied_rel(
            pre[p[k]],
            post[k],
            has_opt(opts, SubOption::All),
            has_opt(opts, SubOption::HumanRead),
        ));
        if has_opt(opts, SubOption::HumanRead) {
            crate::human::lemma_human_str_nonempty(pre[p[k]].size as nat);
        } else {
            assert(pre[p[k]].size_format@.len() == 0);
        }
    }
}

proof fn lemma_filter_all(s: Seq<Entry>)
    requires
        forall|k: int| 0 <= k < s.len() ==> #[trigger] s[k].display,
    ensures
        displayed(s) == s,
    decreases s.len(),
{
    reveal(Seq::filter);
    if s.len() > 0 {
        lemma_filter_all(s.drop_last());
        assert(displayed(s) =~= displayed(s.drop_last()).push(s.last()));
    }
}

proof fn lemma_filter_members(s: Seq<Entry>, j: int)
    requires
        0 <= j < displayed(s).len(),
    ensures
        exists|i: int| 0 <= i < s.len() && s[i] == displayed(s)[j],
    decreases s.len(),
{
    reveal(Seq::filter);
    if s.len() > 0 {
        let d = displayed(s);
        let dd = displayed(s.drop_last());
        if s.last().display {
            assert(d == dd.push(s.last()));
            if j < dd.len() {
                lemma_filter_members(s.drop_last(), j);
                let i = choose|i: int| 0 <= i < s.drop_last().len() && s.drop_last()[i] == dd[j];
                assert(s[i] == d[j]);
            } else {
                assert(d[j] == s[s.len() - 1]);
            }
        } else {
            assert(d == dd);
            lemma_filter_members(s.drop_last(), j);
            let i = choose|i: int| 0 <= i < s.drop_last().len() && s.drop_last()[i] == dd[j];
            assert(s[i] == d[j]);
        }
    }
}

/// Visibility after `start`: without `-a` no emitted name begins with a
/// dot; with `-a` every child is emitted, each exactly once — provided each
/// entry's flag began under the dot-file rule, as `init` sets it.
pub proof fn lemma_visibility(pre: Seq<Entry>, post: Seq<Entry>, opts: Seq<SubOption>)
    requires
        start_order_post(pre, post, opts),
        forall|k: int|
            0 <= k < pre.len() ==> #[trigger] pre[k].display == !(pre[k].file_name@.len() > 0
                && pre[k].file_name@[0] == '.'),
    ensures
        !has_opt(opts, SubOption::All) ==> forall|j: int|
            0 <= j < displayed(post).len() ==> !(#[trigger] displayed(post)[j].file_name@.len() > 0
                && displayed(post)[j].file_name@[0] == '.'),
        has_opt(opts, SubOption::All) ==> displayed(post) == post,
{
    let p = choose|p: Seq<int>| start_order_witness(pre, post, opts, p);
    if has_opt(opts, SubOption::All) {
        assert forall|k: int| 0 <= k < post.len() implies #[trigger] post[k].display by {
            assert(0 <= p[k] < pre.len());
            assert(option_applied_rel(
                pre[p[k]],
                post[k],
                true,
                has_opt(opts, SubOption::HumanRead),
            ));
        }
        lemma_filter_all(post);
    } else {
        assert forall|j: int| 0 <= j < displayed(post).len() implies !(
        #[trigger] displayed(post)[j].file_name@.len() > 0 && displayed(post)[j].file_name@[0]
            == '.') by {
            lemma_filter_members(post, j);
            let i = choose|i: int| 0 <= i < post.len() && post[i] == displayed(post)[j];
            assert(displayed(post)[j].display) by {
                Seq::lemma_filter_pred(post, |e: Entry| e.display, j);
            }
            assert(0 <= p[i] < pre.len());
            assert(option_applied_rel(
                pre[p[i]],
                post[i],
                false,
                has_opt(opts, SubOption::HumanRead),
            ));
            assert(pre[p[i]].display);
        }
    }
}

proof fn lemma_join_count(parts: Seq<Seq<char>>, s: Seq<char>, c: char)
    requires
        forall|k: int| 0 <= k < parts.len() ==> count_char(#[trigger] parts[k], c) == 0,
    ensures
        count_char(join_with(parts, s), c) == if parts.len() <= 1 {
            0nat
        } else {
            ((parts.len() - 1) * count_char(s, c)) as nat
        },
    decreases parts.len(),
{
    if parts.len() == 0 {
    } else if parts.len() == 1 {
    } else {
        assert forall|k: int| 0 <= k < parts.drop_first().len() implies count_char(
            #[trigger] parts.drop_first()[k],
            c,
        ) == 0 by {
            assert(parts.drop_first()[k] == parts[k + 1]);
        }
        lemma_join_count(parts.drop_first(), s, c);
        lemma_count_char_add(parts[0], s, c);
        lemma_count_char_add(parts[0] + s, join_with(parts.drop_first(), s), c);
        assert((parts.len() - 2) * count_char(s, c) + count_char(s, c) == (parts.len() - 1)
            * count_char(s, c)) by (nonlinear_arith);
    }
}

/// In the compact layout, when no displayed name holds whitespace, the only
/// whitespace in the body of the output is the two-space separator between
/// emitted rows: exactly two spaces per separator, and no tab, newline or
/// carriage return at all.
pub proof fn lemma_compact_whitespace(entries: Seq<Entry>)
    requires
        forall|j: int, i: int|
            0 <= j < displayed(entries).len() && 0 <= i < displayed(entries)[j].file_name@.len()
                ==> !is_whitespace(#[trigger] displayed(entries)[j].file_name@[i]),
    ensures
        ({
            let body = join_with(
                displayed(entries).map_values(|e: Entry| e.file_name@),
                sep(false),
            );
            let m = displayed(entries).len();
            &&& count_char(body, ' ') == (if m <= 1 {
                0nat
            } else {
                (2 * (m - 1)) as nat
            })
            &&& count_char(body, '\t') == 0
            &&& count_char(body, '\n') == 0
            &&& count_char(body, '\r') == 0
        }),
{
    let parts = displayed(entries).map_values(|e: Entry| e.file_name@);
    let m = displayed(entries).len();
    assert forall|k: int| 0 <= k < parts.len() implies count_char(#[trigger] parts[k], ' ')
        == 0 by {
        assert(parts[k] == displayed(entries)[k].file_name@);
        crate::strutil::lemma_count_char_none(parts[k], ' ');
    }
    assert forall|k: int| 0 <= k < parts.len() implies count_char(#[trigger] parts[k], '\t')
        == 0 by {
        assert(parts[k] == displayed(entries)[k].file_name@);
        crate::strutil::lemma_count_char_none(parts[k], '\t');
    }
    assert forall|k: int| 0 <= k < parts.len() implies count_char(#[trigger] parts[k], '\n')
        == 0 by {
        assert(parts[k] == displayed(entries)[k].file_name@);
        crate::strutil::lemma_count_char_none(parts[k], '\n');
    }
    assert forall|k: int| 0 <= k < parts.len() implies count_char(#[trigger] parts[k], '\r')
        == 0 by {
        assert(parts[k] == displayed(entries)[k].file_name@);
        crate::strutil::lemma_count_char_none(parts[k], '\r');
    }
    lemma_join_count(parts, sep(false), ' ');
    lemma_join_count(parts, sep(false), '\t');
    lemma_join_count(parts, sep(false), '\n');
    lemma_join_count(parts, sep(false), '\r');
    assert(seq![' '].drop_last() =~= Seq::<char>::empty());
    assert(sep(false).drop_last() =~= seq![' ']);
    assert(count_char(Seq::<char>::empty(), ' ') == 0);
    assert(count_char(seq![' '], ' ') == 1);
    assert(count_char(sep(false), ' ') == 2);
    assert(count_char(Seq::<char>::empty(), '\t') == 0);
    assert(count_char(seq![' '], '\t') == 0);
    assert(count_char(sep(false), '\t') == 0);
    assert(count_char(Seq::<char>::empty(), '\n') == 0);
    assert(count_char(seq![' '], '\n') == 0);
    assert(count_char(sep(false), '\n') == 0);
    assert(count_char(Seq::<char>::empty(), '\r') == 0);
    assert(count_char(seq![' '], '\r') == 0);
    assert(count_char(sep(false), '\r') == 0);
    if m > 1 {
        assert(((m - 1) * 2) as nat == (2 * (m - 1)) as nat) by (nonlinear_arith)
            requires
                m > 1,
        ;
        assert(((m - 1) * 0) as nat == 0nat) by (nonlinear_arith);
    }
}

/// A whitespace character of the compact layout's concern.
pub open spec fn is_whitespace(c: char) -> bool {
    c == ' ' || c == '\t' || c == '\n' || c == '\r'
}

proof fn lemma_join_last(parts: Seq<Seq<char>>, s: Seq<char>)
    requires
        forall|k: int|
            0 <= k < parts.len() && #[trigger] parts[k].len() > 0 ==> parts[k].last() != '\n',
        s.len() > 0,
        s.last() != '\n',
    ensures
        join_with(parts, s).len() > 0 ==> join_with(parts, s).last() != '\n',
    decreases parts.len(),
{
    if parts.len() == 0 {
    } else if parts.len() == 1 {
        assert(join_with(parts, s) == parts[0]);
    } else {
        assert forall|k: int|
            0 <= k < parts.drop_first().len() && #[trigger] parts.drop_first()[k].len()
                > 0 implies parts.drop_first()[k].last() != '\n' by {
            assert(parts.drop_first()[k] == parts[k + 1]);
        }
        lemma_join_last(parts.drop_first(), s);
        let rest = join_with(parts.drop_first(), s);
        let whole = parts[0] + s + rest;
        assert(join_with(parts, s) == whole);
        if rest.len() > 0 {
            assert(whole.last() == rest.last());
        } else {
            assert(whole.last() == s.last());
        }
    }
}

/// The output ends with exactly one newline: its last character is a
/// newline and the character before it, if any, is not — provided no
/// displayed name itself ends with a newline.
pub proof fn lemma_single_trailing_newline(
    entries: Seq<Entry>,
    long: bool,
    mc: int,
    mu: int,
    mg: int,
    msf: int,
    msl: int,
)
    requires
        forall|j: int|
            0 <= j < displayed(entries).len() && #[trigger] displayed(
                entries,
            )[j].file_name@.len() > 0 ==> displayed(entries)[j].file_name@.last() != '\n',
    ensures
        ({
            let out = output_text(entries, long, mc, mu, mg, msf, msl);
            &&& out.len() >= 1
            &&& out.last() == '\n'
            &&& out.len() >= 2 ==> out[out.len() - 2] != '\n'
        }),
{
    let rowfn = |e: Entry| row_text(e, long, mc, mu, mg, msf, msl);
    let parts = displayed(entries).map_values(rowfn);
    let body = join_with(parts, sep(long));
    let out = output_text(entries, long, mc, mu, mg, msf, msl);
    assert(out == body + seq!['\n']);
    assert(out.last() == '\n');
    assert forall|k: int| 0 <= k < parts.len() && #[trigger] parts[k].len() > 0 implies parts[k].last()
        != '\n' by {
        let e = displayed(entries)[k];
        assert(parts[k] == rowfn(e));
        if long {
            let row = long_row_text(e, mc, mu, mg, msf, msl);
            let lead = e.file_permission@ + seq![' '] + pad_right(
                dec_str(e.files_number as nat),
                mc,
            ) + seq![' '] + pad_right(e.user_name@, mu) + seq![' '] + pad_right(e.group_name@, mg)
                + seq![' '] + size_field_text(e, msf, msl) + seq![' '] + timestamp_text(
                e.update_time as int,
            ) + seq![' '];
            assert(row =~= lead + e.file_name@);
            if e.file_name@.len() > 0 {
                assert(row.last() == e.file_name@.last());
            } else {
                assert(row.last() == ' ');
            }
        }
    }
    assert(sep(long).last() != '\n' || long);
    if long {
        assert(sep(true).last() == '\n');
        // every long row is non-empty, so the join never ends on a separator
        assert forall|k: int| 0 <= k < parts.len() implies #[trigger] parts[k].len() > 0 by {
            let e = displayed(entries)[k];
            assert(parts[k] == rowfn(e));
            let row = long_row_text(e, mc, mu, mg, msf, msl);
            assert(row.len() >= 1);
        }
        lemma_join_last_nonempty(parts, sep(true));
    } else {
        lemma_join_last(parts, sep(false));
    }
    if body.len() > 0 {
        assert(out[out.len() - 2] == body.last());
    }
}

proof fn lemma_join_last_nonempty(parts: Seq<Seq<char>>, s: Seq<char>)
    requires
        forall|k: int| 0 <= k < parts.len() ==> #[trigger] parts[k].len() > 0,
        forall|k: int|
            0 <= k < parts.len() && #[trigger] parts[k].len() > 0 ==> parts[k].last() != '\n',
    ensures
        join_with(parts, s).len() > 0 ==> join_with(parts, s).last() != '\n',
    decreases parts.len(),
{
    if parts.len() == 0 {
    } else if parts.len() == 1 {
        assert(join_with(parts, s) == parts[0]);
    } else {
        assert forall|k: int| 0 <= k < parts.drop_first().len() implies #[trigger] parts.drop_first()[k].len()
            > 0 by {
            assert(parts.drop_first()[k] == parts[k + 1]);
        }
        assert forall|k: int|
            0 <= k < parts.drop_first().len() && #[trigger] parts.drop_first()[k].len()
                > 0 implies parts.drop_first()[k].last() != '\n' by {
            assert(parts.drop_first()[k] == parts[k + 1]);
        }
        lemma_join_last_nonempty(parts.drop_first(), s);
        let rest = join_with(parts.drop_first(), s);
        let whole = parts[0] + s + rest;
        assert(join_with(parts, s) == whole);
        assert(rest.len() > 0);
        assert(whole.last() == rest.last());
    }
}

} // verus!
