//! Shell completion: the candidates the cache-only provider offers, and
//! the additions to the generated completion scripts that call it.
use vstd::prelude::*;

use crate::config::{lowercase, unicode_lowercase};
use crate::registry_lock::{lemma_lex_total, lemma_lex_trans, lex_le, lex_le_exec};
use crate::text::{chars_of, push_str, str_eq, to_owned};

verus! {

/// What a completion request asks candidates for.
#[derive(Clone, Copy, PartialEq, Eq, Structural, Debug)]
pub enum CompletionKind {
    DictAdd,
    DictRemove,
    WordsAdd,
    WordFile,
    ConfigKey,
}

/// The shells completion scripts are generated for.
#[derive(Clone, Copy, PartialEq, Eq, Structural, Debug)]
pub enum CompletionShell {
    Bash,
    Elvish,
    Fish,
    PowerShell,
    Zsh,
}

/// Every configuration key, in the order completion offers them.
pub open spec fn config_keys() -> Seq<Seq<char>> {
    seq![
        "check.mode"@,
        "check.locale"@,
        "check.profile"@,
        "check.min-word-len"@,
        "check.max-token-len"@,
        "files.exclude"@,
        "files.include-hidden"@,
        "files.max-file-size"@,
        "words.project"@,
        "words.ignore"@,
        "words.dictionaries"@,
        "corrections.builtin"@,
        "corrections.extra"@,
        "japanese.enabled"@,
        "japanese.katakana-style"@,
        "japanese.variant-files"@,
        "japanese.flag-fullwidth-alnum"@,
        "japanese.flag-halfwidth-kana"@,
        "japanese.fullwidth-space"@,
        "japanese.flag-compatibility"@,
        "japanese.kanji-consistency"@,
        "japanese.number-consistency"@,
        "japanese.punctuation-consistency"@,
    ]
}

/// `s` starts with `p`.
pub open spec fn starts_with(s: Seq<char>, p: Seq<char>) -> bool {
    p.len() <= s.len() && s.take(p.len() as int) == p
}

fn starts_with_exec(s: &str, p: &str) -> (r: bool)
    ensures
        r == starts_with(s@, p@),
{
    crate::text::strip_prefix(s, p).is_some()
}

/// The keys of `ks` that start with `prefix`, in order.
pub open spec fn keys_with_prefix(ks: Seq<Seq<char>>, prefix: Seq<char>) -> Seq<Seq<char>>
    decreases ks.len(),
{
    if ks.len() == 0 {
        Seq::empty()
    } else {
        let r = keys_with_prefix(ks.drop_last(), prefix);
        if starts_with(ks.last(), prefix) {
            r.push(ks.last())
        } else {
            r
        }
    }
}

/// The configuration keys that start with `prefix`.
pub fn config_key_candidates(prefix: &str) -> (r: Vec<&'static str>)
    ensures
        r@.map_values(|s: &str| s@) == keys_with_prefix(config_keys(), prefix@),
{
    let keys: Vec<&'static str> = vec![
        "check.mode",
        "check.locale",
        "check.profile",
        "check.min-word-len",
        "check.max-token-len",
        "files.exclude",
        "files.include-hidden",
        "files.max-file-size",
        "words.project",
        "words.ignore",
        "words.dictionaries",
        "corrections.builtin",
        "corrections.extra",
        "japanese.enabled",
        "japanese.katakana-style",
        "japanese.variant-files",
        "japanese.flag-fullwidth-alnum",
        "japanese.flag-halfwidth-kana",
        "japanese.fullwidth-space",
        "japanese.flag-compatibility",
        "japanese.kanji-consistency",
        "japanese.number-consistency",
        "japanese.punctuation-consistency",
    ];
    let ghost kv = keys@.map_values(|s: &str| s@);
    assert(kv =~= config_keys());
    let mut out: Vec<&'static str> = Vec::new();
    let mut i: usize = 0;
    assert(kv.take(0) =~= Seq::<Seq<char>>::empty());
    assert(out@.map_values(|s: &str| s@) =~= Seq::<Seq<char>>::empty());
    while i < keys.len()
        invariant
            0 <= i <= keys@.len(),
            kv == keys@.map_values(|s: &str| s@),
            out@.map_values(|s: &str| s@) == keys_with_prefix(kv.take(i as int), prefix@),
        decreases keys@.len() - i,
    {
        assert(kv.take(i + 1).drop_last() =~= kv.take(i as int));
        assert(kv[i as int] == keys@[i as int]@);
        let ghost before = out@.map_values(|s: &str| s@);
        if starts_with_exec(keys[i], prefix) {
            out.push(keys[i]);
            assert(out@.map_values(|s: &str| s@) =~= before.push(keys@[i as int]@));
        }
        i += 1;
    }
    assert(kv.take(kv.len() as int) =~= kv);
    out
}

/// The extension of a file name as `std::path::Path::extension` reads it:
/// what follows the last `.`, unless that dot starts the name.
pub open spec fn spec_extension(name: Seq<char>) -> Option<Seq<char>> {
    let j = crate::migrate::last_index(name, '.', name.len() as int);
    if j > 0 {
        Some(name.skip(j + 1))
    } else {
        None
    }
}

/// Whether a file in the working directory is offered as a word file: its
/// name starts with `prefix`, and it is `ayame-words.txt` or has a word
/// list extension (`txt`, `dic`, `dict`, `words`).
pub open spec fn spec_word_file_candidate(name: Seq<char>, prefix: Seq<char>) -> bool {
    starts_with(name, prefix) && (name == "ayame-words.txt"@ || match spec_extension(name) {
        Some(e) => e == "txt"@ || e == "dic"@ || e == "dict"@ || e == "words"@,
        None => false,
    })
}

/// Whether a file name is offered as a word file for `prefix`.
pub fn is_word_file_candidate(name: &str, prefix: &str) -> (r: bool)
    ensures
        r == spec_word_file_candidate(name@, prefix@),
{
    if !starts_with_exec(name, prefix) {
        return false;
    }
    if str_eq(name, "ayame-words.txt") {
        return true;
    }
    let cs = chars_of(name);
    let mut j = cs.len();
    while j > 0 && cs[j - 1] != '.'
        invariant
            j <= cs@.len(),
            cs@ == name@,
            crate::migrate::last_index(cs@, '.', cs@.len() as int) == crate::migrate::last_index(cs@, '.', j as int),
        decreases j,
    {
        j -= 1;
    }
    if j <= 1 {
        return false;
    }
    let e = crate::text::string_from_range(cs.as_slice(), j, cs.len());
    assert(e@ =~= name@.skip(j as int));
    str_eq(e.as_str(), "txt") || str_eq(e.as_str(), "dic") || str_eq(e.as_str(), "dict") || str_eq(
        e.as_str(),
        "words",
    )
}

/// `x` placed into the ordered `s` after every element not greater.
pub open spec fn insert_sorted(s: Seq<Seq<char>>, x: Seq<char>) -> Seq<Seq<char>>
    decreases s.len(),
{
    if s.len() == 0 {
        seq![x]
    } else if lex_le(s.last(), x) {
        s.push(x)
    } else {
        insert_sorted(s.drop_last(), x).push(s.last())
    }
}

/// Words in increasing order (insertion sort).
pub open spec fn sort_words(s: Seq<Seq<char>>) -> Seq<Seq<char>>
    decreases s.len(),
{
    if s.len() == 0 {
        s
    } else {
        insert_sorted(sort_words(s.drop_last()), s.last())
    }
}

/// The words whose lowercase form starts with the lowercase `prefix`.
pub open spec fn matching_words(ws: Seq<Seq<char>>, prefix: Seq<char>) -> Seq<Seq<char>>
    decreases ws.len(),
{
    if ws.len() == 0 {
        Seq::empty()
    } else {
        let r = matching_words(ws.drop_last(), prefix);
        if starts_with(unicode_lowercase(ws.last()), unicode_lowercase(prefix)) {
            r.push(ws.last())
        } else {
            r
        }
    }
}

/// Completion candidates among `words`: those whose lowercase form starts
/// with the lowercase `prefix`, sorted.
pub fn matching_candidates(words: &Vec<String>, prefix: &str) -> (r: Vec<String>)
    ensures
        r.deep_view() == sort_words(matching_words(words.deep_view(), prefix@)),
{
    let p = lowercase(prefix);
    let ghost wv = words.deep_view();
    let mut kept: Vec<String> = Vec::new();
    let mut i: usize = 0;
    assert(wv.take(0) =~= Seq::<Seq<char>>::empty());
    assert(kept.deep_view() =~= Seq::<Seq<char>>::empty());
    while i < words.len()
        invariant
            0 <= i <= words@.len(),
            wv == words.deep_view(),
            p@ == unicode_lowercase(prefix@),
            kept.deep_view() == matching_words(wv.take(i as int), prefix@),
        decreases words@.len() - i,
    {
        assert(wv.take(i + 1).drop_last() =~= wv.take(i as int));
        assert(wv[i as int] == words@[i as int]@);
        let l = lowercase(words[i].as_str());
        if starts_with_exec(l.as_str(), p.as_str()) {
            let ghost b = kept.deep_view();
            kept.push(to_owned(words[i].as_str()));
            assert(kept.deep_view() =~= b.push(words@[i as int]@));
        }
        i += 1;
    }
    assert(wv.take(wv.len() as int) =~= wv);
    sort_strings(kept)
}

/// Strings sorted in increasing order, equal ones kept in their order.
fn sort_strings(v: Vec<String>) -> (r: Vec<String>)
    ensures
        r.deep_view() == sort_words(v.deep_view()),
{
    let ghost all = v.deep_view();
    let mut out: Vec<String> = Vec::new();
    let mut n: usize = 0;
    assert(all.take(0) =~= Seq::<Seq<char>>::empty());
    assert(out.deep_view() =~= Seq::<Seq<char>>::empty());
    while n < v.len()
        invariant
            0 <= n <= v@.len(),
            all == v.deep_view(),
            out.deep_view() == sort_words(all.take(n as int)),
        decreases v@.len() - n,
    {
        let x = to_owned(v[n].as_str());
        let ghost xv = x@;
        proof {
            assert(all[n as int] == xv);
            assert(all.take(n + 1).drop_last() =~= all.take(n as int));
            assert(all.take(n + 1).last() == xv);
        }
        let ghost sorted = out.deep_view();
        let mut p = out.len();
        assert(sorted.take(p as int) =~= sorted);
        assert(insert_sorted(sorted, xv) + sorted.skip(p as int) =~= insert_sorted(sorted, xv));
        while p > 0 && !lex_le_exec(&out[p - 1], &x)
            invariant
                0 <= p <= out@.len(),
                sorted == out.deep_view(),
                xv == x@,
                insert_sorted(sorted, xv) == insert_sorted(sorted.take(p as int), xv) + sorted.skip(p as int),
            decreases p,
        {
            proof {
                let t = sorted.take(p as int);
                assert(t.drop_last() =~= sorted.take(p - 1));
                assert(t.last() == sorted[p - 1]);
                assert(sorted[p - 1] == out@[p - 1]@);
                assert(insert_sorted(t, xv) == insert_sorted(t.drop_last(), xv).push(t.last()));
                assert(sorted.skip(p - 1) =~= seq![sorted[p - 1]] + sorted.skip(p as int));
                assert(insert_sorted(sorted.take(p - 1), xv).push(sorted[p - 1]) + sorted.skip(p as int)
                    =~= insert_sorted(sorted.take(p - 1), xv) + sorted.skip(p - 1));
            }
            p -= 1;
        }
        proof {
            let t = sorted.take(p as int);
            if p == 0 {
                assert(t =~= Seq::<Seq<char>>::empty());
            } else {
                assert(t.last() == sorted[p - 1]);
                assert(sorted[p - 1] == out@[p - 1]@);
            }
        }
        let ghost before = out@;
        out.insert(p, x);
        proof {
            let t = sorted.take(p as int);
            assert(insert_sorted(t, xv) =~= t.push(xv));
            assert(out.deep_view() =~= t.push(xv) + sorted.skip(p as int));
        }
        n += 1;
    }
    assert(all.take(v@.len() as int) =~= all);
    out
}

/// The completion hook appended to a shell's script, which asks the
/// cache-only provider for dictionary names and flagged words.
pub open spec fn spec_dynamic_hook(shell: CompletionShell) -> Seq<char> {
    match shell {
        CompletionShell::Bash => BASH_HOOK@,
        CompletionShell::Zsh => ZSH_HOOK@,
        CompletionShell::Fish => FISH_HOOK@,
        _ => Seq::empty(),
    }
}

/// The Bash hook.
pub const BASH_HOOK: &'static str = "
# ayame-spell dynamic completion (cache-only; never performs network I/O).
_ayame_spell_dynamic_wrapper() {
    local cur=\"${COMP_WORDS[COMP_CWORD]}\" kind=\"\"
    if (( COMP_CWORD >= 2 )); then
        case \"${COMP_WORDS[COMP_CWORD-2]} ${COMP_WORDS[COMP_CWORD-1]}\" in
            \"dict add\") kind=\"dict-add\" ;;
            \"dict remove\") kind=\"dict-remove\" ;;
            \"words add\") kind=\"words-add\" ;;
        esac
    fi
    if [[ -z \"$kind\" && \"${COMP_WORDS[COMP_CWORD-1]}\" == \"--words\" ]]; then
        kind=\"word-file\"
    fi
    if [[ -n \"$kind\" ]]; then
        mapfile -t COMPREPLY < <(command ayame-spell __complete \"$kind\" \"$cur\")
        return
    fi
    _ayame-spell \"$@\"
}
complete -o bashdefault -o default -F _ayame_spell_dynamic_wrapper ayame-spell
";

/// The Zsh hook.
pub const ZSH_HOOK: &'static str = "
# ayame-spell dynamic completion (cache-only; never performs network I/O).
_ayame_spell_dynamic_wrapper() {
    local kind=\"\"
    if (( CURRENT >= 3 )); then
        case \"${words[CURRENT-2]} ${words[CURRENT-1]}\" in
            \"dict add\") kind=\"dict-add\" ;;
            \"dict remove\") kind=\"dict-remove\" ;;
            \"words add\") kind=\"words-add\" ;;
        esac
    fi
    if [[ -n \"$kind\" ]]; then
        local -a candidates
        candidates=(\"${(@f)$(command ayame-spell __complete \"$kind\" \"$PREFIX\")}\")
        _describe 'candidate' candidates
    else
        _ayame-spell \"$@\"
    fi
}
compdef _ayame_spell_dynamic_wrapper ayame-spell
";

/// The Fish hook.
pub const FISH_HOOK: &'static str = "
# ayame-spell dynamic completion (cache-only; never performs network I/O).
complete -c ayame-spell -n '__fish_seen_subcommand_from dict; and __fish_seen_subcommand_from add' -f -a '(command ayame-spell __complete dict-add (commandline -ct))'
complete -c ayame-spell -n '__fish_seen_subcommand_from dict; and __fish_seen_subcommand_from remove' -f -a '(command ayame-spell __complete dict-remove (commandline -ct))'
complete -c ayame-spell -n '__fish_seen_subcommand_from words; and __fish_seen_subcommand_from add' -f -a '(command ayame-spell __complete words-add (commandline -ct))'
";

/// The completion hook appended to a shell's generated script.
pub fn dynamic_hook(shell: CompletionShell) -> (r: &'static str)
    ensures
        r@ == spec_dynamic_hook(shell),
{
    match shell {
        CompletionShell::Bash => BASH_HOOK,
        CompletionShell::Zsh => ZSH_HOOK,
        CompletionShell::Fish => FISH_HOOK,
        _ => {
            let e = "";
            proof {
                reveal_strlit("");
            }
            assert(e@ =~= Seq::<char>::empty());
            e
        },
    }
}

/// Where the PowerShell value completions go: before this line.
pub const POWERSHELL_ANCHOR: &'static str = "    $command = @(\n";

/// Value completions of the PowerShell script: dictionary names and
/// flagged words from the provider, and the values of `--format` and
/// `completions`.
pub const POWERSHELL_VALUES: &'static str = r#"    $lastElement = $commandElements[$commandElements.Count - 1]
    $dynamicKind = if ($commandElements.Count -ge 3 -and
                       $lastElement.Value -eq $wordToComplete) {
        $context = @(
            $commandElements[$commandElements.Count - 3].Value,
            $commandElements[$commandElements.Count - 2].Value
        ) -join ' '
        switch ($context) {
            'dict add' { 'dict-add' }
            'dict remove' { 'dict-remove' }
            'words add' { 'words-add' }
        }
    }
    if ($null -ne $dynamicKind) {
        & ayame-spell __complete $dynamicKind $wordToComplete |
            ForEach-Object {
                [CompletionResult]::new(
                    $_, $_, [CompletionResultType]::ParameterValue, $_)
            }
        return
    }

    $valueFor = if ($lastElement.Value -in @('--format', 'completions')) {
        $lastElement.Value
    } elseif ($commandElements.Count -ge 3 -and
              $lastElement.Value -eq $wordToComplete) {
        $commandElements[$commandElements.Count - 2].Value
    }

    $values = switch ($valueFor) {
        '--format' { @('human', 'brief', 'json') }
        'completions' { @('bash', 'elvish', 'fish', 'powershell', 'zsh') }
    }
    if ($null -ne $values) {
        $values |
            Where-Object { $_ -like "$wordToComplete*" } |
            ForEach-Object {
                [CompletionResult]::new(
                    $_, $_, [CompletionResultType]::ParameterValue, $_)
            }
        return
    }

"#;

/// The lines of the Elvish script that the value completions replace.
pub const ELVISH_ANCHOR: &'static str = "    $completions[$command]\n}\n";

/// Value completions of the Elvish script.
pub const ELVISH_VALUES: &'static str = r#"    if (and (>= (count $words) 3) (eq $words[-3] dict) (eq $words[-2] add)) {
        each {|candidate| cand $candidate 'Registry dictionary'} (ayame-spell __complete dict-add $words[-1] | from-lines)
    } elif (and (>= (count $words) 3) (eq $words[-3] dict) (eq $words[-2] remove)) {
        each {|candidate| cand $candidate 'Installed dictionary'} (ayame-spell __complete dict-remove $words[-1] | from-lines)
    } elif (and (>= (count $words) 3) (eq $words[-3] words) (eq $words[-2] add)) {
        each {|candidate| cand $candidate 'Flagged word'} (ayame-spell __complete words-add $words[-1] | from-lines)
    } elif (eq $words[-2] --format) {
        cand human 'Output format'
        cand brief 'Output format'
        cand json 'Output format'
    } elif (eq $words[-2] completions) {
        cand bash 'Shell'
        cand elvish 'Shell'
        cand fish 'Shell'
        cand powershell 'Shell'
        cand zsh 'Shell'
    } else {
        $completions[$command]
    }
}
"#;

/// The first index at or after `i` where `n` stands in `h`, or -1.
pub open spec fn find_from(h: Seq<char>, n: Seq<char>, i: int) -> int
    decreases h.len() + 1 - i,
{
    if i < 0 || i + n.len() > h.len() {
        -1
    } else if h.subrange(i, i + n.len()) == n {
        i
    } else {
        find_from(h, n, i + 1)
    }
}

/// `h` with the first `n` replaced by `r`, if `n` stands in it (std's
/// `str::replacen` with a count of one).
pub open spec fn replace_first(h: Seq<char>, n: Seq<char>, r: Seq<char>) -> Option<Seq<char>> {
    let k = find_from(h, n, 0);
    if k >= 0 {
        Some(h.take(k) + r + h.skip(k + n.len()))
    } else {
        None
    }
}

fn find_text(h: &Vec<char>, n: &Vec<char>) -> (r: Option<usize>)
    ensures
        match r {
            Some(k) => k + n@.len() <= h@.len() && find_from(h@, n@, 0) == k,
            None => find_from(h@, n@, 0) == -1,
        },
{
    let hl = h.len();
    let nl = n.len();
    if nl > hl {
        return None;
    }
    let mut i: usize = 0;
    while i <= hl - nl
        invariant
            hl == h@.len(),
            nl == n@.len(),
            n@.len() <= h@.len(),
            i <= h@.len() - n@.len() + 1,
            find_from(h@, n@, 0) == find_from(h@, n@, i as int),
        decreases h@.len() + 1 - i,
    {
        let mut j: usize = 0;
        while j < n.len() && h[i + j] == n[j]
            invariant
                hl == h@.len(),
                nl == n@.len(),
                i + n@.len() <= h@.len(),
                0 <= j <= n@.len(),
                forall|q: int| 0 <= q < j ==> h@[i + q] == n@[q],
            decreases n@.len() - j,
        {
            j += 1;
        }
        if j == n.len() {
            assert(h@.subrange(i as int, i + n@.len()) =~= n@);
            return Some(i);
        }
        assert(h@.subrange(i as int, i + n@.len())[j as int] != n@[j as int]);
        i += 1;
    }
    None
}

/// `script` with the value completions of `shell` added: PowerShell's
/// inserted before its command table, Elvish's in place of its final
/// lookup; an error where the generated script lacks that place. Other
/// shells' scripts are kept.
pub open spec fn spec_add_value_completions(shell: CompletionShell, script: Seq<char>) -> Result<Seq<char>, Seq<char>> {
    match shell {
        CompletionShell::PowerShell => match replace_first(script, POWERSHELL_ANCHOR@, POWERSHELL_VALUES@ + POWERSHELL_ANCHOR@) {
            Some(t) => Ok(t),
            None => Err("unexpected PowerShell completion template"@),
        },
        CompletionShell::Elvish => match replace_first(script, ELVISH_ANCHOR@, ELVISH_VALUES@) {
            Some(t) => Ok(t),
            None => Err("unexpected Elvish completion template"@),
        },
        _ => Ok(script),
    }
}

fn replace_first_exec(script: &str, anchor: &str, replacement: &str) -> (r: Option<String>)
    ensures
        match r {
            Some(t) => replace_first(script@, anchor@, replacement@) == Some(t@),
            None => replace_first(script@, anchor@, replacement@) is None,
        },
{
    let h = chars_of(script);
    let n = chars_of(anchor);
    let hl = h.len();
    match find_text(&h, &n) {
        None => None,
        Some(k) => {
            let mut out = crate::text::string_from_range(h.as_slice(), 0, k);
            push_str(&mut out, replacement);
            let rest = crate::text::string_from_range(h.as_slice(), k + n.len(), h.len());
            push_str(&mut out, rest.as_str());
            assert(h@.subrange(0, k as int) =~= script@.take(k as int));
            assert(h@.subrange(k + n@.len(), h@.len() as int) =~= script@.skip(k + n@.len()));
            Some(out)
        },
    }
}

/// Add the value completions of `shell` to its generated script.
pub fn add_value_completions(shell: CompletionShell, script: &str) -> (r: Result<String, String>)
    ensures
        match r {
            Ok(t) => spec_add_value_completions(shell, script@) == Ok::<Seq<char>, Seq<char>>(t@),
            Err(e) => spec_add_value_completions(shell, script@) == Err::<Seq<char>, Seq<char>>(e@),
        },
{
    match shell {
        CompletionShell::PowerShell => {
            let mut r = to_owned(POWERSHELL_VALUES);
            push_str(&mut r, POWERSHELL_ANCHOR);
            match replace_first_exec(script, POWERSHELL_ANCHOR, r.as_str()) {
                Some(t) => Ok(t),
                None => Err(to_owned("unexpected PowerShell completion template")),
            }
        },
        CompletionShell::Elvish => match replace_first_exec(script, ELVISH_ANCHOR, ELVISH_VALUES) {
            Some(t) => Ok(t),
            None => Err(to_owned("unexpected Elvish completion template")),
        },
        _ => Ok(to_owned(script)),
    }
}

} // verus!
