//! Command-line helpers: locating the host name among the arguments of an `ssh` command,
//! parsing and printing VSOCK socket specifications, and drawing random connection tags.
use vstd::prelude::*;
use vstd::arithmetic::power::pow;
use vstd::string::StringSliceAdditionalSpecFns;
use crate::bytes::{le_value, lemma_le_value_bound};

verus! {

/// Short options of OpenSSH that take a value.
pub open spec fn ssh_value_letters() -> Seq<u8> {
    seq![
        66u8, 98, 99, 68, 69, 101, 70, 73, 105, 74, 76, 108, 109, 79, 111, 112, 81, 82, 83, 87, 119,
    ]
}

/// The argument starts with `-`.
pub open spec fn is_option(arg: Seq<u8>) -> bool {
    arg.len() > 0 && arg[0] == 45
}

/// The argument is a group of short options whose last letter takes a value, so that the
/// next argument is that value.
pub open spec fn takes_next_value(arg: Seq<u8>) -> bool {
    arg.len() >= 2 && ssh_value_letters().contains(arg.last())
}

/// Whether a terminal is requested after the letters `arg[1..n]`: `t` asks for one, `T`
/// asks for none, the last of them wins.
pub open spec fn pty_after(arg: Seq<u8>, n: int, pty: bool) -> bool
    decreases n,
{
    if n <= 1 {
        pty
    } else if arg[n - 1] == 116 {
        true
    } else if arg[n - 1] == 84 {
        false
    } else {
        pty_after(arg, n - 1, pty)
    }
}

/// Why the host name could not be found among the arguments of `ssh`.
#[derive(Debug, Clone, Copy, PartialEq, Eq, Structural)]
pub enum SshArgsError {
    /// An argument is a lone `-`.
    SingleDash,
    /// The options run to the end of the arguments, or are followed by another option.
    NoHostname,
}

/// Where the options of `ssh` end, scanning from argument `idx` with terminal request
/// `pty` so far: the index of the host name and whether a terminal is requested.
pub open spec fn ssh_scan(args: Seq<Seq<u8>>, idx: int, pty: bool) -> Result<(int, bool), SshArgsError>
    decreases args.len() + 1 - idx,
{
    if idx < 0 || idx >= args.len() || !is_option(args[idx]) {
        ssh_scan_end(args, idx, pty)
    } else if args[idx].len() == 1 {
        Err(SshArgsError::SingleDash)
    } else if args[idx] == seq![45u8, 45u8] {
        ssh_scan_end(args, idx + 1, pty)
    } else {
        ssh_scan(
            args,
            idx + 1 + if takes_next_value(args[idx]) { 1int } else { 0 },
            pty_after(args[idx], args[idx].len() as int, pty),
        )
    }
}

/// The host name is argument `idx`, if there is one and it is no option.
pub open spec fn ssh_scan_end(args: Seq<Seq<u8>>, idx: int, pty: bool) -> Result<(int, bool), SshArgsError> {
    if idx < 0 || idx >= args.len() || is_option(args[idx]) {
        Err(SshArgsError::NoHostname)
    } else {
        Ok((idx, pty))
    }
}

/// The short options of OpenSSH that take a value are exactly the letters of
/// `BbcDEeFIiJLlmOopQRSWw`: for `ssh -c v h`, the host name is `h` (index 2) when `c` is one
/// of them, and `v` (index 1) otherwise; a terminal is requested exactly for `-t`.
pub proof fn lemma_ssh_value_options(c: u8, v: Seq<u8>, h: Seq<u8>)
    requires
        c != 45,
        v.len() > 0 && v[0] != 45,
        h.len() > 0 && h[0] != 45,
    ensures
        ssh_scan(seq![seq![45u8, c], v, h], 0, false) == Ok::<(int, bool), SshArgsError>((
            if seq![
                ('B' as u8), ('b' as u8), ('c' as u8), ('D' as u8), ('E' as u8), ('e' as u8), ('F' as u8), ('I' as u8), ('i' as u8), ('J' as u8), ('L' as u8), ('l' as u8), ('m' as u8), ('O' as u8), ('o' as u8), ('p' as u8),
                ('Q' as u8), ('R' as u8), ('S' as u8), ('W' as u8), ('w' as u8),
            ].contains(c) {
                2int
            } else {
                1int
            },
            c == ('t' as u8),
        )),
{
    let lit: Seq<u8> = seq![
        ('B' as u8), ('b' as u8), ('c' as u8), ('D' as u8), ('E' as u8), ('e' as u8), ('F' as u8), ('I' as u8), ('i' as u8), ('J' as u8), ('L' as u8), ('l' as u8), ('m' as u8), ('O' as u8), ('o' as u8), ('p' as u8),
        ('Q' as u8), ('R' as u8), ('S' as u8), ('W' as u8), ('w' as u8),
    ];
    assert(lit =~= ssh_value_letters());
    let opt = seq![45u8, c];
    let args = seq![opt, v, h];
    assert(args[0] == opt && args[1] == v && args[2] == h);
    assert(opt != seq![45u8, 45u8]) by {
        assert(opt[1] != 45u8);
    }
    assert(opt.last() == c);
    assert(pty_after(opt, 2, false) == (c == ('t' as u8))) by {
        reveal_with_fuel(pty_after, 3);
    }
    let pty = c == ('t' as u8);
    let idx: int = if lit.contains(c) { 2 } else { 1 };
    assert(takes_next_value(opt) == lit.contains(c));
    assert(!is_option(args[idx]));
    assert(ssh_scan(args, idx, pty) == ssh_scan_end(args, idx, pty));
    assert(ssh_scan(args, 0, false) == ssh_scan(args, idx, pty));
}

/// The arguments as byte strings.
pub open spec fn arg_bytes(args: Seq<Vec<u8>>) -> Seq<Seq<u8>> {
    args.map_values(|a: Vec<u8>| a@)
}

fn is_value_letter(c: u8) -> (r: bool)
    ensures
        r == ssh_value_letters().contains(c),
{
    let letters: [u8; 21] = [
        66u8, 98, 99, 68, 69, 101, 70, 73, 105, 74, 76, 108, 109, 79, 111, 112, 81, 82, 83, 87, 119,
    ];
    let ghost l = ssh_value_letters();
    proof {
        assert(letters@ =~= l);
    }
    let mut i: usize = 0;
    while i < 21
        invariant
            i <= 21,
            letters@ == l,
            l == ssh_value_letters(),
            forall|j: int| 0 <= j < i ==> l[j] != c,
        decreases 21 - i,
    {
        if letters[i] == c {
            proof {
                assert(l[i as int] == c);
                assert(l.contains(c));
            }
            return true;
        }
        i = i + 1;
    }
    false
}

/// Find the host name among the arguments that follow `ssh`: skip the options (and the
/// values of those that take one), stopping after `--`. Returns the index of the host
/// name and whether the options request a terminal (`-t`) or not (`-T`, the default).
pub fn locate_openssh_cmd_hostname(ssh_args: &[Vec<u8>]) -> (r: Result<(usize, bool), SshArgsError>)
    requires
        ssh_args@.len() < usize::MAX,
    ensures
        match ssh_scan(arg_bytes(ssh_args@), 0, false) {
            Ok((i, pty)) => r == Ok::<(usize, bool), SshArgsError>((i as usize, pty)),
            Err(e) => r == Err::<(usize, bool), SshArgsError>(e),
        },
{
    let ghost args = arg_bytes(ssh_args@);
    let mut dst_idx: usize = 0;
    let mut allocates_pty = false;
    while dst_idx < ssh_args.len()
        invariant_except_break
            args == arg_bytes(ssh_args@),
            ssh_args@.len() < usize::MAX,
            dst_idx <= ssh_args@.len() + 1,
            ssh_scan(args, 0, false) == ssh_scan(args, dst_idx as int, allocates_pty),
        ensures
            args == arg_bytes(ssh_args@),
            dst_idx <= ssh_args@.len() + 1,
            ssh_scan(args, 0, false) == ssh_scan_end(args, dst_idx as int, allocates_pty),
        decreases ssh_args@.len() + 1 - dst_idx,
    {
        let base_arg: &Vec<u8> = &ssh_args[dst_idx];
        proof {
            assert(args[dst_idx as int] == base_arg@);
        }
        if base_arg.len() == 0 || base_arg[0] != 45 {
            break;
        }
        if base_arg.len() == 1 {
            return Err(SshArgsError::SingleDash);
        }
        if base_arg.len() == 2 && base_arg[1] == 45 {
            proof {
                assert(base_arg@ =~= seq![45u8, 45u8]);
            }
            dst_idx = dst_idx + 1;
            break;
        }
        proof {
            assert(base_arg@ != seq![45u8, 45u8]);
        }
        let ghost pty0 = allocates_pty;
        let ghost idx0 = dst_idx;
        let mut i: usize = 1;
        while i < base_arg.len()
            invariant
                1 <= i <= base_arg@.len(),
                base_arg@.len() >= 2,
                dst_idx == idx0 + if i == base_arg@.len() && takes_next_value(base_arg@) { 1int } else { 0 },
                idx0 < ssh_args@.len(),
                ssh_args@.len() < usize::MAX,
                allocates_pty == pty_after(base_arg@, i as int, pty0),
            decreases base_arg@.len() - i,
        {
            let c = base_arg[i];
            if is_value_letter(c) {
                if i == base_arg.len() - 1 {
                    dst_idx = dst_idx + 1;
                }
            } else if c == 116 {
                allocates_pty = true;
            } else if c == 84 {
                allocates_pty = false;
            }
            proof {
                assert(base_arg@[i as int] == c);
                if i + 1 == base_arg@.len() {
                    assert(base_arg@.last() == c);
                }
            }
            i = i + 1;
        }
        dst_idx = dst_idx + 1;
    }
    if dst_idx >= ssh_args.len() {
        return Err(SshArgsError::NoHostname);
    }
    let a = &ssh_args[dst_idx];
    proof {
        assert(args[dst_idx as int] == a@);
    }
    if a.len() > 0 && a[0] == 45 {
        Err(SshArgsError::NoHostname)
    } else {
        Ok((dst_idx, allocates_pty))
    }
}

/// The context id of the host in VSOCK addresses.
pub const VMADDR_CID_HOST: u32 = 2;

/// A VSOCK socket: a context id and a port, and whether connections go to the host.
#[derive(Debug, Clone, Copy, PartialEq, Eq, Structural)]
pub struct VSockConfig {
    pub to_host: bool,
    pub cid: u32,
    pub port: u32,
}

/// A VSOCK specification that does not have the form `[[s]CID:]port`.
#[derive(Debug, Clone, Copy, PartialEq, Eq, Structural)]
pub enum VSockSpecError {
    Malformed,
}

pub open spec fn is_digit(c: u8) -> bool {
    48 <= c <= 57
}

/// The value of the decimal digits `s`.
pub open spec fn digits_value(s: Seq<u8>) -> int
    decreases s.len(),
{
    if s.len() == 0 {
        0
    } else {
        digits_value(s.drop_last()) * 10 + (s.last() - 48)
    }
}

/// `s` without a leading `+`.
pub open spec fn strip_plus(s: Seq<u8>) -> Seq<u8> {
    if s.len() > 0 && s[0] == 43 {
        s.drop_first()
    } else {
        s
    }
}

pub open spec fn all_digits(d: Seq<u8>) -> bool {
    forall|i: int| 0 <= i < d.len() ==> is_digit(#[trigger] d[i])
}

/// One or more decimal digits whose value fits in 32 bits.
pub open spec fn digits_u32(d: Seq<u8>) -> Option<u32> {
    if d.len() > 0 && all_digits(d) && digits_value(d) <= u32::MAX {
        Some(digits_value(d) as u32)
    } else {
        None
    }
}

/// An unsigned 32-bit integer in decimal: an optional `+`, then one or more digits whose
/// value fits.
pub open spec fn parse_u32_spec(s: Seq<u8>) -> Option<u32> {
    digits_u32(strip_plus(s))
}

/// The position of the first `:` in `s`.
pub open spec fn first_colon(s: Seq<u8>) -> Option<int> {
    if exists|k: int| 0 <= k < s.len() && s[k] == 58 {
        Some(choose|k: int| 0 <= k < s.len() && s[k] == 58 && forall|j: int| 0 <= j < k ==> s[j] != 58)
    } else {
        None
    }
}

/// A VSOCK specification `[[s]CID:]port`: without a context id, the host's, and the
/// prefix `s` asks for connections to the host.
pub open spec fn vsock_parse_spec(s: Seq<u8>) -> Result<VSockConfig, VSockSpecError> {
    match first_colon(s) {
        Some(k) => {
            let prefix = s.subrange(0, k);
            let suffix = s.subrange(k + 1, s.len() as int);
            let to_host = prefix.len() > 0 && prefix[0] == 115;
            let p = if to_host { prefix.drop_first() } else { prefix };
            match (parse_u32_spec(p), parse_u32_spec(suffix)) {
                (Some(cid), Some(port)) => Ok(VSockConfig { to_host, cid, port }),
                _ => Err(VSockSpecError::Malformed),
            }
        },
        None => match parse_u32_spec(s) {
            Some(port) => Ok(VSockConfig { to_host: false, cid: VMADDR_CID_HOST, port }),
            None => Err(VSockSpecError::Malformed),
        },
    }
}

/// The decimal digits of `n`, without leading zeros.
pub open spec fn dec_digits(n: nat) -> Seq<u8>
    decreases n,
{
    if n < 10 {
        seq![(48 + n) as u8]
    } else {
        dec_digits(n / 10).push((48 + n % 10) as u8)
    }
}

/// A VSOCK specification as text: the port alone for the host's context id without the
/// prefix, else `[s]CID:port`.
pub open spec fn vsock_display_spec(c: VSockConfig) -> Seq<u8> {
    if c.cid == VMADDR_CID_HOST && !c.to_host {
        dec_digits(c.port as nat)
    } else {
        (if c.to_host { seq![115u8] } else { Seq::empty() }) + dec_digits(c.cid as nat) + seq![58u8] + dec_digits(c.port as nat)
    }
}

/// Parse the digits of `s[start..end]` as `digits_u32` does.
fn parse_digits(s: &[u8], start: usize, end: usize) -> (r: Option<u32>)
    requires
        start <= end <= s@.len(),
    ensures
        r == digits_u32(s@.subrange(start as int, end as int)),
{
    let ghost d = s@.subrange(start as int, end as int);
    if start == end {
        return None;
    }
    let mut i = start;
    let mut acc: u64 = 0;
    proof {
        assert(s@.subrange(start as int, start as int) =~= Seq::<u8>::empty());
    }
    while i < end
        invariant
            start <= i <= end <= s@.len(),
            start < end,
            d == s@.subrange(start as int, end as int),
            forall|j: int| start <= j < i ==> is_digit(#[trigger] s@[j]),
            acc == digits_value(s@.subrange(start as int, i as int)),
            acc <= u32::MAX,
        decreases end - i,
    {
        let c = s[i];
        if c < 48 || c > 57 {
            proof {
                assert(d[i - start] == c);
                assert(!is_digit(d[i - start]));
                assert(digits_u32(d) is None);
            }
            return None;
        }
        proof {
            let t = s@.subrange(start as int, i as int + 1);
            assert(t.drop_last() =~= s@.subrange(start as int, i as int));
            assert(t.last() == c);
        }
        acc = acc * 10 + (c - 48) as u64;
        if acc > u32::MAX as u64 {
            proof {
                if all_digits(d) {
                    lemma_digits_value_grows(d, i - start + 1);
                    assert(d.subrange(0, i - start + 1) =~= s@.subrange(start as int, i as int + 1));
                }
                assert(digits_u32(d) is None);
            }
            return None;
        }
        i = i + 1;
    }
    proof {
        assert forall|j: int| 0 <= j < d.len() implies is_digit(#[trigger] d[j]) by {
            assert(d[j] == s@[start + j]);
        }
    }
    Some(acc as u32)
}

/// Parse the digits of `s[start..end]` as `parse_u32_spec` does.
fn parse_u32_dec(s: &[u8], start: usize, end: usize) -> (r: Option<u32>)
    requires
        start <= end <= s@.len(),
    ensures
        r == parse_u32_spec(s@.subrange(start as int, end as int)),
{
    let ghost whole = s@.subrange(start as int, end as int);
    let mut i = start;
    if i < end && s[i] == 43 {
        i = i + 1;
    }
    proof {
        assert(s@.subrange(i as int, end as int) =~= strip_plus(whole));
    }
    parse_digits(s, i, end)
}

/// A signed 32-bit integer in decimal: an optional sign, then one or more digits whose
/// value fits.
pub open spec fn parse_i32_spec(s: Seq<u8>) -> Option<i32> {
    if s.len() > 0 && s[0] == 45 {
        match digits_u32(s.drop_first()) {
            Some(v) => if v <= 0x8000_0000 { Some((-(v as int)) as i32) } else { None },
            None => None,
        }
    } else {
        match parse_u32_spec(s) {
            Some(v) => if v <= i32::MAX { Some(v as i32) } else { None },
            None => None,
        }
    }
}

/// Parse a signed 32-bit integer in decimal (see `parse_i32_spec`), such as the number
/// of an inherited connection.
pub fn parse_i32(s: &[u8]) -> (r: Option<i32>)
    ensures
        r == parse_i32_spec(s@),
{
    if s.len() > 0 && s[0] == 45 {
        proof {
            assert(s@.subrange(1, s@.len() as int) =~= s@.drop_first());
        }
        match parse_digits(s, 1, s.len()) {
            Some(v) => if v <= 0x8000_0000 {
                Some((0 - v as i64) as i32)
            } else {
                None
            },
            None => None,
        }
    } else {
        proof {
            assert(s@.subrange(0, s@.len() as int) =~= s@);
        }
        match parse_u32_dec(s, 0, s.len()) {
            Some(v) => if v <= 0x7fff_ffff {
                Some(v as i32)
            } else {
                None
            },
            None => None,
        }
    }
}

/// The value of a prefix of digits is at most that of the whole.
proof fn lemma_digits_value_grows(d: Seq<u8>, n: int)
    requires
        0 <= n <= d.len(),
        forall|j: int| 0 <= j < d.len() ==> is_digit(#[trigger] d[j]),
    ensures
        digits_value(d.subrange(0, n)) <= digits_value(d),
    decreases d.len() - n,
{
    if n < d.len() {
        lemma_digits_value_grows(d, n + 1);
        let t = d.subrange(0, n + 1);
        assert(t.drop_last() =~= d.subrange(0, n));
        assert(is_digit(t.last()));
        lemma_digits_value_nonneg(d.subrange(0, n));
    } else {
        assert(d.subrange(0, n) =~= d);
    }
}

proof fn lemma_digits_value_nonneg(d: Seq<u8>)
    requires
        forall|j: int| 0 <= j < d.len() ==> is_digit(#[trigger] d[j]),
    ensures
        digits_value(d) >= 0,
    decreases d.len(),
{
    if d.len() > 0 {
        assert(is_digit(d[d.len() - 1]));
        lemma_digits_value_nonneg(d.drop_last());
    }
}

fn push_dec(out: &mut Vec<u8>, n: u32)
    ensures
        final(out)@ == old(out)@ + dec_digits(n as nat),
    decreases n,
{
    if n >= 10 {
        push_dec(out, n / 10);
    }
    out.push(48 + (n % 10) as u8);
    proof {
        if n >= 10 {
            assert(final(out)@ =~= old(out)@ + dec_digits(n as nat)) by {
                assert(dec_digits(n as nat) == dec_digits((n / 10) as nat).push((48 + n % 10) as u8));
            }
        } else {
            assert(dec_digits(n as nat) == seq![(48 + n) as u8]);
            assert(final(out)@ =~= old(out)@ + dec_digits(n as nat));
        }
    }
}

impl VSockConfig {
    /// Parse a VSOCK specification `[[s]CID:]port` (see `vsock_parse_spec`).
    pub fn parse(s: &[u8]) -> (r: Result<VSockConfig, VSockSpecError>)
        ensures
            r == vsock_parse_spec(s@),
    {
        let mut k: usize = 0;
        while k < s.len() && s[k] != 58
            invariant
                k <= s@.len(),
                forall|j: int| 0 <= j < k ==> s@[j] != 58,
            decreases s@.len() - k,
        {
            k = k + 1;
        }
        if k < s.len() {
            proof {
                assert(s@[k as int] == 58);
                let c = choose|c: int| 0 <= c < s@.len() && s@[c] == 58 && forall|j: int| 0 <= j < c ==> s@[j] != 58;
                assert(c == k) by {
                    if c < k {
                        assert(s@[c] != 58);
                    } else if c > k {
                        assert(s@[k as int] != 58);
                    }
                }
                assert(first_colon(s@) == Some(k as int));
            }
            let to_host = k > 0 && s[0] == 115;
            let pstart: usize = if to_host { 1 } else { 0 };
            proof {
                let prefix = s@.subrange(0, k as int);
                if to_host {
                    assert(prefix.drop_first() =~= s@.subrange(1, k as int));
                } else {
                    assert(prefix =~= s@.subrange(0, k as int));
                }
            }
            let cid = parse_u32_dec(s, pstart, k);
            let port = parse_u32_dec(s, k + 1, s.len());
            match (cid, port) {
                (Some(cid), Some(port)) => Ok(VSockConfig { to_host, cid, port }),
                _ => Err(VSockSpecError::Malformed),
            }
        } else {
            proof {
                assert(!exists|c: int| 0 <= c < s@.len() && s@[c] == 58);
                assert(s@.subrange(0, s@.len() as int) =~= s@);
            }
            match parse_u32_dec(s, 0, s.len()) {
                Some(port) => Ok(VSockConfig { to_host: false, cid: VMADDR_CID_HOST, port }),
                None => Err(VSockSpecError::Malformed),
            }
        }
    }

    /// The specification as text (see `vsock_display_spec`), in ASCII.
    pub fn display_bytes(&self) -> (r: Vec<u8>)
        ensures
            r@ == vsock_display_spec(*self),
    {
        let mut out: Vec<u8> = Vec::new();
        if self.cid == VMADDR_CID_HOST && !self.to_host {
            push_dec(&mut out, self.port);
            proof {
                assert(out@ =~= dec_digits(self.port as nat));
            }
        } else {
            if self.to_host {
                out.push(115);
            }
            push_dec(&mut out, self.cid);
            out.push(58);
            push_dec(&mut out, self.port);
            proof {
                assert(out@ =~= (if self.to_host { seq![115u8] } else { Seq::empty() }) + dec_digits(self.cid as nat)
                    + seq![58u8] + dec_digits(self.port as nat));
            }
        }
        out
    }
}

impl core::str::FromStr for VSockConfig {
    type Err = VSockSpecError;

    fn from_str(s: &str) -> (r: Result<VSockConfig, VSockSpecError>)
        ensures
            r == vsock_parse_spec(s.spec_bytes()),
    {
        VSockConfig::parse(s.as_bytes())
    }
}

proof fn lemma_dec_digits(n: nat)
    ensures
        dec_digits(n).len() > 0,
        all_digits(dec_digits(n)),
        digits_value(dec_digits(n)) == n,
    decreases n,
{
    if n >= 10 {
        lemma_dec_digits(n / 10);
        let d = dec_digits(n);
        assert(d.drop_last() =~= dec_digits(n / 10));
        assert(d.last() == (48 + n % 10) as u8);
        vstd::arithmetic::div_mod::lemma_fundamental_div_mod(n as int, 10);
        assert(digits_value(d) == digits_value(dec_digits(n / 10)) * 10 + (d.last() - 48));
        assert forall|i: int| 0 <= i < d.len() implies is_digit(#[trigger] d[i]) by {
            if i < d.len() - 1 {
                assert(d[i] == dec_digits(n / 10)[i]);
            }
        }
    } else {
        let d = dec_digits(n);
        assert(d.drop_last() =~= Seq::<u8>::empty());
        assert(digits_value(d) == digits_value(d.drop_last()) * 10 + (d.last() - 48));
    }
}

/// Decimal digits parse back to their value.
proof fn lemma_parse_dec(n: u32)
    ensures
        parse_u32_spec(dec_digits(n as nat)) == Some(n),
{
    lemma_dec_digits(n as nat);
    let d = dec_digits(n as nat);
    assert(is_digit(d[0]));
    assert(strip_plus(d) == d);
}

/// Printing a VSOCK specification and parsing the text gives it back.
pub proof fn lemma_vsock_roundtrip(c: VSockConfig)
    ensures
        vsock_parse_spec(vsock_display_spec(c)) == Ok::<VSockConfig, VSockSpecError>(c),
{
    lemma_parse_dec(c.port);
    lemma_parse_dec(c.cid);
    lemma_dec_digits(c.port as nat);
    lemma_dec_digits(c.cid as nat);
    let t = vsock_display_spec(c);
    let p = dec_digits(c.port as nat);
    let q = dec_digits(c.cid as nat);
    if c.cid == VMADDR_CID_HOST && !c.to_host {
        assert(!exists|k: int| 0 <= k < t.len() && t[k] == 58) by {
            assert forall|k: int| 0 <= k < t.len() implies t[k] != 58 by {
                assert(is_digit(p[k]));
            }
        }
    } else {
        let h: Seq<u8> = if c.to_host { seq![115u8] } else { Seq::empty() };
        let pre = h + q;
        let k = pre.len() as int;
        assert(t =~= pre + seq![58u8] + p);
        assert forall|j: int| 0 <= j < k implies t[j] != 58 by {
            if c.to_host && j == 0 {
            } else {
                let i = if c.to_host { j - 1 } else { j };
                assert(t[j] == q[i]);
                assert(is_digit(q[i]));
            }
        }
        assert(t[k] == 58);
        let f = choose|f: int| 0 <= f < t.len() && t[f] == 58 && forall|j: int| 0 <= j < f ==> t[j] != 58;
        assert(f == k) by {
            if f > k {
                assert(t[k] != 58);
            }
        }
        assert(first_colon(t) == Some(k));
        assert(t.subrange(0, k) =~= pre);
        assert(t.subrange(k + 1, t.len() as int) =~= p);
        if c.to_host {
            assert(pre.drop_first() =~= q);
        } else {
            assert(pre =~= q);
            assert(is_digit(q[0]));
        }
    }
}

/// Letter or digit number `v` (below 62) of the alphabet `a..z`, `A..Z`, `0..9`.
pub open spec fn tag_char(v: int) -> u8 {
    if v < 26 {
        (97 + v) as u8
    } else if v < 52 {
        (65 + v - 26) as u8
    } else {
        (48 + v - 52) as u8
    }
}

/// The ten base-62 digits of `n`, least significant first, as letters and digits.
pub open spec fn rand_tag_spec(n: int) -> Seq<u8> {
    Seq::new(10, |i: int| tag_char((n / pow(62, i as nat)) % 62))
}

/// The connection tag made from 16 random bytes, read as a little-endian number.
pub fn rand_tag_from_bytes(bytes: &[u8; 16]) -> (tag: [u8; 10])
    ensures
        tag@ == rand_tag_spec(le_value(bytes@)),
{
    let ghost s = bytes@;
    let mut n: u128 = 0;
    let mut k: usize = 16;
    proof {
        assert(s.subrange(16, 16) =~= Seq::<u8>::empty());
    }
    while k > 0
        invariant
            k <= 16,
            s == bytes@,
            s.len() == 16,
            n == le_value(s.subrange(k as int, 16)),
        decreases k,
    {
        proof {
            lemma_le_value_bound(s.subrange(k as int, 16));
            vstd::arithmetic::power::lemma_pow_increases(256, (16 - k) as nat, 15);
            assert(pow(256, 15) == 0x1_0000_0000_0000_0000_0000_0000_0000_00) by {
                reveal_with_fuel(pow, 16);
            }
            assert(s.subrange(k - 1, 16).drop_first() =~= s.subrange(k as int, 16));
            assert(s.subrange(k - 1, 16)[0] == s[k - 1]);
        }
        n = bytes[k - 1] as u128 + 256 * n;
        k = k - 1;
    }
    proof {
        assert(s.subrange(0, 16) =~= s);
    }
    let ghost n0 = n as int;
    proof {
        vstd::arithmetic::power::lemma_pow0(62);
    }
    let mut tag: [u8; 10] = [0u8; 10];
    let mut i: usize = 0;
    while i < 10
        invariant
            i <= 10,
            n0 >= 0,
            n == n0 / pow(62, i as nat),
            forall|j: int| 0 <= j < i ==> tag@[j] == tag_char((n0 / pow(62, j as nat)) % 62),
        decreases 10 - i,
    {
        let v = (n % 62) as u32;
        let c: u8 = if v < 26 {
            (v + 97) as u8
        } else if v < 52 {
            (v - 26 + 65) as u8
        } else {
            (v - 52 + 48) as u8
        };
        proof {
            vstd::arithmetic::power::lemma_pow_positive(62, i as nat);
            vstd::arithmetic::div_mod::lemma_div_denominator(n0, pow(62, i as nat), 62);
            vstd::arithmetic::power::lemma_pow_adds(62, i as nat, 1);
            vstd::arithmetic::power::lemma_pow1(62);
        }
        tag[i] = c;
        n = n / 62;
        i = i + 1;
    }
    proof {
        assert(tag@ =~= rand_tag_spec(n0));
    }
    tag
}

/// Why no connection tag could be made.
#[derive(Debug, Clone, Copy, PartialEq, Eq, Structural)]
pub enum TagError {
    /// The system's source of random bytes failed.
    RandomUnavailable,
}

#[verifier::external_type_specification]
#[verifier::external_body]
pub struct ExRandomError(getrandom::Error);

/// Fills `buf` with random bytes from the system (`getrandom::getrandom`); on success the
/// bytes are random, so nothing is stated of them, and on failure they are unspecified.
#[verifier::external_body]
fn fill_random(buf: &mut [u8; 16]) -> (r: Result<(), getrandom::Error>) {
    getrandom::getrandom(buf)
}

/// A random tag of ten letters and digits, to tell connections apart.
pub fn get_rand_tag() -> (r: Result<[u8; 10], TagError>)
    ensures
        r matches Ok(tag) ==> exists|b: Seq<u8>| b.len() == 16 && tag@ == rand_tag_spec(le_value(b)),
{
    let mut rand_buf: [u8; 16] = [0u8; 16];
    match fill_random(&mut rand_buf) {
        Ok(()) => {
            let tag = rand_tag_from_bytes(&rand_buf);
            proof {
                assert(rand_buf@.len() == 16);
            }
            Ok(tag)
        },
        Err(_) => Err(TagError::RandomUnavailable),
    }
}

/// Where the two proxies meet: a VSOCK port or a Unix socket path.
#[derive(Debug, Clone)]
pub enum SocketSpec {
    VSock(VSockConfig),
    Unix(Vec<u8>),
}

/// The settings passed on to a connection handler process.
#[derive(Debug, Clone)]
pub struct ConnectionOptions {
    pub debug: bool,
    pub no_gpu: bool,
    /// The compression setting as written on the command line.
    pub compression: Vec<u8>,
    /// The video setting as written after `--video=`.
    pub video: Vec<u8>,
    /// Whether video encoding is on.
    pub video_enabled: bool,
    pub threads: u32,
    pub title_prefix: Vec<u8>,
    pub drm_node: Option<Vec<u8>>,
    pub debug_store_video: Option<Vec<u8>>,
    pub test_skip_vulkan: bool,
    pub test_no_timeline_export: bool,
    pub test_no_binary_semaphore_import: bool,
}

/// The bytes of a string.
pub open spec fn lit(s: &str) -> Seq<u8> {
    s.spec_bytes()
}

/// `a` if `c`, else nothing.
pub open spec fn opt_args(c: bool, a: Seq<Seq<u8>>) -> Seq<Seq<u8>> {
    if c {
        a
    } else {
        Seq::empty()
    }
}

/// The socket as an argument: the VSOCK specification, or the path.
pub open spec fn socket_arg(s: SocketSpec) -> Seq<u8> {
    match s {
        SocketSpec::VSock(v) => vsock_display_spec(v),
        SocketSpec::Unix(p) => p@,
    }
}

/// The arguments for a connection handler process.
pub open spec fn connection_command_spec(socket: SocketSpec, o: ConnectionOptions, client: bool, anti_staircase: bool) -> Seq<Seq<u8>> {
    seq![lit("-s"), socket_arg(socket)]
        + opt_args(socket is VSock, seq![lit("--vsock")])
        + opt_args(o.debug, seq![lit("-d")])
        + opt_args(o.no_gpu, seq![lit("-n")])
        + seq![lit("--threads"), dec_digits(o.threads as nat), lit("-c"), o.compression@]
        + opt_args(o.title_prefix@.len() > 0, seq![lit("--title-prefix"), o.title_prefix@])
        + opt_args(o.video_enabled, seq![lit("--video=") + o.video@])
        + match o.drm_node {
            Some(d) => seq![lit("--drm-node"), d@],
            None => Seq::empty(),
        }
        + opt_args(anti_staircase, seq![lit("--anti-staircase")])
        + match o.debug_store_video {
            Some(p) => seq![lit("--test-store-video"), p@],
            None => Seq::empty(),
        }
        + opt_args(o.test_skip_vulkan, seq![lit("--test-skip-vulkan")])
        + opt_args(o.test_no_timeline_export, seq![lit("--test-no-timeline-export")])
        + opt_args(o.test_no_binary_semaphore_import, seq![lit("--test-no-binary-semaphore-import")])
        + seq![if client { lit("client-conn") } else { lit("server-conn") }]
}

/// The arguments as byte strings.
pub open spec fn arg_seq(args: Seq<Vec<u8>>) -> Seq<Seq<u8>> {
    args.map_values(|a: Vec<u8>| a@)
}

fn push_arg(args: &mut Vec<Vec<u8>>, v: Vec<u8>)
    ensures
        arg_seq(final(args)@) == arg_seq(old(args)@).push(v@),
{
    args.push(v);
    proof {
        assert(arg_seq(args@) =~= arg_seq(old(args)@).push(v@));
    }
}

fn str_arg(s: &str) -> (r: Vec<u8>)
    ensures
        r@ == lit(s),
{
    vstd::slice::slice_to_vec(s.as_bytes())
}

fn copy_bytes(v: &Vec<u8>) -> (r: Vec<u8>)
    ensures
        r@ == v@,
{
    vstd::slice::slice_to_vec(v.as_slice())
}

/// Append the arguments `group` to `args`.
fn append_args(args: &mut Vec<Vec<u8>>, group: Vec<Vec<u8>>)
    ensures
        arg_seq(final(args)@) == arg_seq(old(args)@) + arg_seq(group@),
{
    let ghost g0 = group@;
    let mut group = group;
    args.append(&mut group);
    proof {
        assert(arg_seq(args@) =~= arg_seq(old(args)@) + arg_seq(g0));
    }
}

/// The arguments `a` when `c` holds, else none.
fn args_if(c: bool, a: Vec<Vec<u8>>) -> (r: Vec<Vec<u8>>)
    ensures
        arg_seq(r@) == opt_args(c, arg_seq(a@)),
{
    if c {
        a
    } else {
        let r: Vec<Vec<u8>> = Vec::new();
        proof {
            assert(arg_seq(r@) =~= Seq::<Seq<u8>>::empty());
        }
        r
    }
}

fn one_arg(a: Vec<u8>) -> (r: Vec<Vec<u8>>)
    ensures
        arg_seq(r@) == seq![a@],
{
    let mut r: Vec<Vec<u8>> = Vec::new();
    push_arg(&mut r, a);
    proof {
        assert(arg_seq(r@) =~= seq![a@]);
    }
    r
}

fn two_args(a: Vec<u8>, b: Vec<u8>) -> (r: Vec<Vec<u8>>)
    ensures
        arg_seq(r@) == seq![a@, b@],
{
    let mut r: Vec<Vec<u8>> = Vec::new();
    push_arg(&mut r, a);
    push_arg(&mut r, b);
    proof {
        assert(arg_seq(r@) =~= seq![a@, b@]);
    }
    r
}

fn optional_pair(name: &str, value: &Option<Vec<u8>>) -> (r: Vec<Vec<u8>>)
    ensures
        arg_seq(r@) == match *value {
            Some(d) => seq![lit(name), d@],
            None => Seq::<Seq<u8>>::empty(),
        },
{
    match value {
        Some(d) => two_args(str_arg(name), copy_bytes(d)),
        None => {
            let r: Vec<Vec<u8>> = Vec::new();
            proof {
                assert(arg_seq(r@) =~= Seq::<Seq<u8>>::empty());
            }
            r
        },
    }
}

fn video_arg(video: &Vec<u8>) -> (r: Vec<u8>)
    ensures
        r@ == lit("--video=") + video@,
{
    let mut v = str_arg("--video=");
    let ghost v0 = v@;
    let mut i: usize = 0;
    while i < video.len()
        invariant
            i <= video@.len(),
            v@ == v0 + video@.subrange(0, i as int),
        decreases video@.len() - i,
    {
        v.push(video[i]);
        proof {
            assert(v@ =~= v0 + video@.subrange(0, i as int + 1));
        }
        i = i + 1;
    }
    proof {
        assert(video@.subrange(0, video@.len() as int) =~= video@);
    }
    v
}

fn threads_and_compression(threads: u32, compression: &Vec<u8>) -> (r: Vec<Vec<u8>>)
    ensures
        arg_seq(r@) == seq![lit("--threads"), dec_digits(threads as nat), lit("-c"), compression@],
{
    let mut t: Vec<u8> = Vec::new();
    push_dec(&mut t, threads);
    let mut r: Vec<Vec<u8>> = Vec::new();
    push_arg(&mut r, str_arg("--threads"));
    push_arg(&mut r, t);
    push_arg(&mut r, str_arg("-c"));
    push_arg(&mut r, copy_bytes(compression));
    proof {
        assert(t@ =~= dec_digits(threads as nat));
        assert(arg_seq(r@) =~= seq![lit("--threads"), dec_digits(threads as nat), lit("-c"), compression@]);
    }
    r
}

/// The arguments for a connection handler process (see `connection_command_spec`).
pub fn build_connection_command(
    socket_path: &SocketSpec,
    options: &ConnectionOptions,
    client: bool,
    anti_staircase: bool,
) -> (args: Vec<Vec<u8>>)
    requires
        options.drm_node is Some ==> !client,
    ensures
        arg_seq(args@) == connection_command_spec(*socket_path, *options, client, anti_staircase),
{
    let socket_str = match socket_path {
        SocketSpec::VSock(x) => x.display_bytes(),
        SocketSpec::Unix(x) => copy_bytes(x),
    };
    let is_vsock = match socket_path {
        SocketSpec::VSock(_) => true,
        SocketSpec::Unix(_) => false,
    };
    let mut args = two_args(str_arg("-s"), socket_str);
    append_args(&mut args, args_if(is_vsock, one_arg(str_arg("--vsock"))));
    append_args(&mut args, args_if(options.debug, one_arg(str_arg("-d"))));
    append_args(&mut args, args_if(options.no_gpu, one_arg(str_arg("-n"))));
    append_args(&mut args, threads_and_compression(options.threads, &options.compression));
    let has_title = options.title_prefix.len() > 0;
    append_args(&mut args, args_if(has_title, two_args(str_arg("--title-prefix"), copy_bytes(&options.title_prefix))));
    append_args(&mut args, args_if(options.video_enabled, one_arg(video_arg(&options.video))));
    append_args(&mut args, optional_pair("--drm-node", &options.drm_node));
    append_args(&mut args, args_if(anti_staircase, one_arg(str_arg("--anti-staircase"))));
    append_args(&mut args, optional_pair("--test-store-video", &options.debug_store_video));
    append_args(&mut args, args_if(options.test_skip_vulkan, one_arg(str_arg("--test-skip-vulkan"))));
    append_args(&mut args, args_if(options.test_no_timeline_export, one_arg(str_arg("--test-no-timeline-export"))));
    append_args(
        &mut args,
        args_if(options.test_no_binary_semaphore_import, one_arg(str_arg("--test-no-binary-semaphore-import"))),
    );
    let last = if client { str_arg("client-conn") } else { str_arg("server-conn") };
    append_args(&mut args, one_arg(last));
    args
}
/// The contents of an X display lock file: the process id right-aligned in ten columns,
/// then a newline.
pub open spec fn x_lock_contents_spec(pid: u32) -> Seq<u8> {
    let d = dec_digits(pid as nat);
    Seq::new((10 - d.len()) as nat, |i: int| 32u8) + d + seq![10u8]
}

proof fn lemma_dec_digits_len(n: nat, k: nat)
    requires
        k >= 1,
        n < pow(10, k),
    ensures
        1 <= dec_digits(n).len() <= k,
    decreases n,
{
    if n >= 10 {
        vstd::arithmetic::power::lemma_pow_adds(10, 1, (k - 1) as nat);
        vstd::arithmetic::power::lemma_pow1(10);
        if k == 1 {
            assert(false);
        }
        assert(n / 10 < pow(10, (k - 1) as nat)) by {
            vstd::arithmetic::div_mod::lemma_fundamental_div_mod(n as int, 10);
            vstd::arithmetic::power::lemma_pow_positive(10, (k - 1) as nat);
            assert(10 * (n / 10) <= n);
            assert(n < 10 * pow(10, (k - 1) as nat));
        }
        lemma_dec_digits_len(n / 10, (k - 1) as nat);
    }
}

/// The contents of the lock file of an X display held by process `pid`.
pub fn x_lock_contents(pid: u32) -> (r: Vec<u8>)
    ensures
        r@ == x_lock_contents_spec(pid),
        r@.len() == 11,
{
    let mut digits: Vec<u8> = Vec::new();
    push_dec(&mut digits, pid);
    proof {
        assert(digits@ =~= dec_digits(pid as nat));
        assert(pow(10, 10) == 10_000_000_000) by {
            reveal_with_fuel(pow, 11);
        }
        lemma_dec_digits_len(pid as nat, 10);
    }
    let mut out: Vec<u8> = Vec::new();
    let pad = 10 - digits.len();
    let mut i: usize = 0;
    while i < pad
        invariant
            i <= pad,
            out@ == Seq::new(i as nat, |j: int| 32u8),
        decreases pad - i,
    {
        out.push(32);
        proof {
            assert(out@ =~= Seq::new((i + 1) as nat, |j: int| 32u8));
        }
        i = i + 1;
    }
    let ghost spaces = out@;
    let mut k: usize = 0;
    while k < digits.len()
        invariant
            k <= digits@.len(),
            out@ == spaces + digits@.subrange(0, k as int),
        decreases digits@.len() - k,
    {
        out.push(digits[k]);
        proof {
            assert(out@ =~= spaces + digits@.subrange(0, k as int + 1));
        }
        k = k + 1;
    }
    out.push(10);
    proof {
        assert(digits@.subrange(0, digits@.len() as int) =~= digits@);
        assert(out@ =~= x_lock_contents_spec(pid));
    }
    out
}

/// `prefix`, the decimal digits of `n`, then `suffix`.
pub open spec fn numbered_name(prefix: Seq<u8>, n: u8, suffix: Seq<u8>) -> Seq<u8> {
    prefix + dec_digits(n as nat) + suffix
}

fn numbered(prefix: &str, n: u8, suffix: &str) -> (r: Vec<u8>)
    ensures
        r@ == numbered_name(lit(prefix), n, lit(suffix)),
{
    let mut out = str_arg(prefix);
    push_dec(&mut out, n as u32);
    let tail = str_arg(suffix);
    let ghost mid = out@;
    let mut i: usize = 0;
    while i < tail.len()
        invariant
            i <= tail@.len(),
            out@ == mid + tail@.subrange(0, i as int),
        decreases tail@.len() - i,
    {
        out.push(tail[i]);
        proof {
            assert(out@ =~= mid + tail@.subrange(0, i as int + 1));
        }
        i = i + 1;
    }
    proof {
        assert(tail@.subrange(0, tail@.len() as int) =~= tail@);
    }
    out
}

/// The lock file of X display `display`, in `/tmp`.
pub fn x_lock_file_name(display: u8) -> (r: Vec<u8>)
    ensures
        r@ == numbered_name(lit(".X"), display, lit("-lock")),
{
    numbered(".X", display, "-lock")
}

/// The socket of X display `display`, in `/tmp/.X11-unix`.
pub fn x_socket_name(display: u8) -> (r: Vec<u8>)
    ensures
        r@ == numbered_name(lit("X"), display, lit("")),
{
    numbered("X", display, "")
}

/// The abstract socket address of X display `display`.
pub fn x_abstract_socket_path(display: u8) -> (r: Vec<u8>)
    ensures
        r@ == numbered_name(lit("/tmp/.X11-unix/X"), display, lit("")),
{
    numbered("/tmp/.X11-unix/X", display, "")
}

} // verus!
