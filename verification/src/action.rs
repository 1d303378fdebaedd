use vstd::prelude::*;

verus! {

/// An immutable description of an external command: a program name,
/// an ordered argument list, and a free-form variant label.
#[derive(Debug, Clone)]
pub struct Action {
    pub cmd: String,
    pub args: Vec<String>,
    pub variant: String,
}

/// The arguments joined with a single space between consecutive entries.
pub open spec fn join_with_spaces(args: Seq<Seq<char>>) -> Seq<char>
    decreases args.len(),
{
    if args.len() == 0 {
        Seq::<char>::empty()
    } else if args.len() == 1 {
        args[0]
    } else {
        args[0] + seq![' '] + join_with_spaces(args.drop_first())
    }
}

proof fn lemma_join_with_spaces_push(args: Seq<Seq<char>>, x: Seq<char>)
    requires
        args.len() > 0,
    ensures
        join_with_spaces(args.push(x)) == join_with_spaces(args) + seq![' '] + x,
    decreases args.len(),
{
    if args.len() == 1 {
        assert(args.push(x).drop_first() =~= seq![x]);
        assert(join_with_spaces(seq![x]) == x);
        assert(args.push(x)[0] == args[0]);
    } else {
        assert(args.push(x).drop_first() =~= args.drop_first().push(x));
        lemma_join_with_spaces_push(args.drop_first(), x);
        assert(join_with_spaces(args.push(x)) == args[0] + seq![' ']
            + (join_with_spaces(args.drop_first()) + seq![' '] + x));
        assert(args[0] + seq![' '] + (join_with_spaces(args.drop_first()) + seq![' '] + x)
            =~= (args[0] + seq![' '] + join_with_spaces(args.drop_first())) + seq![' '] + x);
    }
}

impl Action {
    /// The rendering used when an action is shown to a person:
    /// the program name, a space, then the space-joined arguments.
    pub open spec fn display_view(self) -> Seq<char> {
        self.cmd@ + seq![' '] + join_with_spaces(self.args.deep_view())
    }

    pub fn new(cmd: String, args: Vec<String>) -> (a: Action)
        ensures
            a.cmd == cmd,
            a.args == args,
            a.variant@ == Seq::<char>::empty(),
    {
        Action { cmd, args, variant: String::new() }
    }

    pub fn get_cmd(&self) -> (r: &str)
        ensures
            r@ == self.cmd@,
    {
        self.cmd.as_str()
    }

    pub fn get_args(&self) -> (r: &Vec<String>)
        ensures
            r == &self.args,
    {
        &self.args
    }

    /// Builds the display rendering of this action as a fresh string.
    pub fn to_display_string(&self) -> (r: String)
        ensures
            r@ == self.display_view(),
    {
        let mut out = self.cmd.clone();
        out.append(" ");
        let ghost all = self.args.deep_view();
        proof {
            reveal_strlit(" ");
            assert(out@ =~= self.cmd@ + seq![' '] + join_with_spaces(all.take(0)));
        }
        let n = self.args.len();
        let mut k: usize = 0;
        while k < n
            invariant
                n == self.args.len(),
                all == self.args.deep_view(),
                k <= n,
                out@ == self.cmd@ + seq![' '] + join_with_spaces(all.take(k as int)),
            decreases n - k,
        {
            if k > 0 {
                out.append(" ");
            }
            out.append(self.args[k].as_str());
            proof {
                reveal_strlit(" ");
                assert(self.args@[k as int]@ == all[k as int]);
                assert(all.take(k as int + 1) =~= all.take(k as int).push(all[k as int]));
                if k > 0 {
                    lemma_join_with_spaces_push(all.take(k as int), all[k as int]);
                    assert(out@ =~= self.cmd@ + seq![' ']
                        + join_with_spaces(all.take(k as int + 1)));
                } else {
                    assert(all.take(1) =~= seq![all[0]]);
                    assert(join_with_spaces(all.take(1)) == all[0]);
                    assert(out@ =~= self.cmd@ + seq![' '] + join_with_spaces(all.take(1)));
                }
            }
            k = k + 1;
        }
        proof {
            assert(all.take(n as int) =~= all);
        }
        out
    }
}

} // verus!
