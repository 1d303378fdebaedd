use vstd::prelude::*;

verus! {

/// A command-line tool the agent may have access to: the command itself,
/// the probed version text, and the argument that asks the tool for its
/// version.
#[derive(Debug)]
pub struct Tool {
    pub cmd: String,
    pub version: Option<String>,
    pub version_arg: Option<String>,
}

/// Why probing a tool's version failed: no version argument is known for
/// the tool, the command could not be run, or its output was not text.
#[derive(Debug)]
pub enum ToolError {
    MissingVersionArg(String),
    CommandFailed(String, String),
    Utf8Error,
}

impl Tool {
    pub fn new(cmd: String) -> (t: Tool)
        ensures
            t.cmd == cmd,
            t.version is None,
            t.version_arg is None,
    {
        Tool { cmd, version: None, version_arg: None }
    }

    pub fn version(&self) -> (r: &Option<String>)
        ensures
            r == &self.version,
    {
        &self.version
    }

    /// The argument to pass when probing this tool's version, or the error
    /// naming the tool when none is known. Running the probe itself is the
    /// caller's affair; its output comes back through `record_version`.
    pub fn version_query(&self) -> (r: Result<String, ToolError>)
        ensures
            self.version_arg matches Some(a) ==> r == Result::<String, ToolError>::Ok(a),
            self.version_arg is None ==> (r matches Err(e) && e matches ToolError::MissingVersionArg(
                c,
            ) && c == self.cmd),
    {
        match &self.version_arg {
            Some(a) => Ok(a.clone()),
            None => Err(ToolError::MissingVersionArg(self.cmd.clone())),
        }
    }

    /// Stores the probed version text.
    pub fn record_version(&mut self, raw: String)
        ensures
            *final(self) == (Tool { version: Some(raw), ..*old(self) }),
    {
        self.version = Some(raw);
    }
}

/// The tools whose availability flag is set, in their original order.
pub open spec fn filter_by_flags(ts: Seq<Tool>, fs: Seq<bool>) -> Seq<Tool>
    decreases ts.len(),
{
    if ts.len() == 0 || fs.len() == 0 {
        Seq::<Tool>::empty()
    } else {
        (if fs[0] {
            seq![ts[0]]
        } else {
            Seq::<Tool>::empty()
        }) + filter_by_flags(ts.drop_first(), fs.drop_first())
    }
}

proof fn lemma_filter_by_flags_push(ts: Seq<Tool>, fs: Seq<bool>, t: Tool, f: bool)
    requires
        ts.len() == fs.len(),
    ensures
        filter_by_flags(ts.push(t), fs.push(f)) == filter_by_flags(ts, fs) + (if f {
            seq![t]
        } else {
            Seq::<Tool>::empty()
        }),
    decreases ts.len(),
{
    let tail = (if f {
        seq![t]
    } else {
        Seq::<Tool>::empty()
    });
    if ts.len() == 0 {
        assert(ts.push(t).drop_first() =~= ts);
        assert(fs.push(f).drop_first() =~= fs);
        assert(filter_by_flags(ts.push(t), fs.push(f)) =~= tail);
        assert(filter_by_flags(ts, fs) + tail =~= tail);
    } else {
        assert(ts.push(t).drop_first() =~= ts.drop_first().push(t));
        assert(fs.push(f).drop_first() =~= fs.drop_first().push(f));
        lemma_filter_by_flags_push(ts.drop_first(), fs.drop_first(), t, f);
        assert(filter_by_flags(ts.push(t), fs.push(f)) =~= filter_by_flags(ts, fs) + tail);
    }
}

/// Keeps, in order, exactly the tools whose availability flag is set. The
/// flags come from the caller's per-tool availability checks.
pub fn available_subset(tools: Vec<Tool>, flags: &Vec<bool>) -> (r: Vec<Tool>)
    requires
        tools@.len() == flags@.len(),
    ensures
        r@ == filter_by_flags(tools@, flags@),
{
    let ghost all = tools@;
    let mut rest = tools;
    let mut r: Vec<Tool> = Vec::new();
    let n = flags.len();
    let mut k: usize = 0;
    while k < n
        invariant
            n == flags@.len(),
            n == all.len(),
            k <= n,
            rest@ == all.skip(k as int),
            r@ == filter_by_flags(all.take(k as int), flags@.take(k as int)),
        decreases n - k,
    {
        proof {
            assert(all.skip(k as int)[0] == all[k as int]);
            assert(all.take(k as int + 1) =~= all.take(k as int).push(all[k as int]));
            assert(flags@.take(k as int + 1) =~= flags@.take(k as int).push(flags@[k as int]));
            lemma_filter_by_flags_push(
                all.take(k as int),
                flags@.take(k as int),
                all[k as int],
                flags@[k as int],
            );
        }
        let t = rest.remove(0);
        if flags[k] {
            r.push(t);
        }
        proof {
            assert(rest@ =~= all.skip(k as int + 1));
        }
        k = k + 1;
    }
    proof {
        assert(all.take(n as int) =~= all);
        assert(flags@.take(n as int) =~= flags@);
    }
    r
}

} // verus!
