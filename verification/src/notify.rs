//! Delivery of verification codes: the SMTP settings and the mail, and the
//! text-message service to use.
use vstd::prelude::*;
use crate::text::{chars_of, push_str, same_text, string_of};

verus! {

/// The SMTP server and the account that sends the mail.
pub struct SmtpSettings {
    pub host: String,
    pub port: u16,
    pub user: String,
    pub pass: String,
}

/// The value of a decimal digit char.
pub open spec fn digit_value(c: char) -> nat {
    (c as u32 - 48) as nat
}

pub open spec fn is_digit(c: char) -> bool {
    '0' <= c <= '9'
}

/// The number written by decimal digits.
pub open spec fn digits_value(s: Seq<char>) -> nat
    decreases s.len(),
{
    if s.len() == 0 {
        0
    } else {
        digits_value(s.drop_last()) * 10 + digit_value(s.last())
    }
}

/// Every char is a decimal digit.
pub open spec fn all_digits(d: Seq<char>) -> bool {
    forall|k: int| 0 <= k < d.len() ==> is_digit(#[trigger] d[k])
}

/// `u16::from_str`: an optional `+`, then one or more decimal digits whose
/// value fits in 16 bits.
pub open spec fn parse_u16(s: Seq<char>) -> Option<u16> {
    let d = if s.len() > 0 && s[0] == '+' { s.skip(1) } else { s };
    if d.len() > 0 && all_digits(d) && digits_value(d) <= 65535 {
        Some(digits_value(d) as u16)
    } else {
        None
    }
}

/// The SMTP port: the variable's value when it is a port number, else 465.
pub open spec fn smtp_port_value(var: Option<Seq<char>>) -> u16 {
    match var {
        Some(v) => match parse_u16(v) {
            Some(p) => p,
            None => 465,
        },
        None => 465,
    }
}

pub proof fn lemma_digits_value_step(s: Seq<char>, k: int)
    requires
        0 <= k < s.len(),
    ensures
        digits_value(s.take(k + 1)) == digits_value(s.take(k)) * 10 + digit_value(s[k]),
{
    assert(s.take(k + 1).drop_last() == s.take(k));
}

fn parse_port(v: &str) -> (r: Option<u16>)
    ensures
        r == parse_u16(v@),
{
    let cs = chars_of(v);
    let start: usize = if cs.len() > 0 && cs[0] == '+' { 1 } else { 0 };
    let ghost d = if cs@.len() > 0 && cs@[0] == '+' { cs@.skip(1) } else { cs@ };
    proof {
        assert(d == cs@.skip(start as int));
    }
    if start == cs.len() {
        return None;
    }
    let mut value: u32 = 0;
    let mut k: usize = start;
    while k < cs.len()
        invariant
            start <= k <= cs@.len(),
            d == cs@.skip(start as int),
            d.len() > 0,
            value == digits_value(d.take(k - start)),
            value <= 65535,
            forall|m: int| 0 <= m < k - start ==> is_digit(#[trigger] d[m]),
            cs@ == v@,
            d == (if v@.len() > 0 && v@[0] == '+' { v@.skip(1) } else { v@ }),
        decreases cs.len() - k,
    {
        let c = cs[k];
        if c < '0' || c > '9' {
            proof {
                assert(d[k - start] == c);
                assert(!is_digit(d[k - start]));
                assert(!all_digits(d));
            }
            return None;
        }
        proof {
            assert(d[k - start] == c);
            lemma_digits_value_step(d, k - start);
        }
        let next: u32 = value * 10 + ((c as u32) - 48);
        if next > 65535 {
            proof {
                lemma_digits_prefix_bound(d, k - start + 1);
                assert(digits_value(d) > 65535);
            }
            return None;
        }
        value = next;
        k += 1;
    }
    proof {
        assert(d.take(d.len() as int) == d);
        assert(all_digits(d));
    }
    Some(value as u16)
}

/// A longer run of digits is worth at least as much as its prefix.
proof fn lemma_digits_prefix_bound(d: Seq<char>, k: int)
    requires
        0 <= k <= d.len(),
    ensures
        digits_value(d.take(k)) <= digits_value(d),
    decreases d.len() - k,
{
    if k < d.len() {
        lemma_digits_prefix_bound(d.drop_last(), k);
        assert(d.drop_last().take(k) == d.take(k));
    } else {
        assert(d.take(k) == d);
    }
}

/// The SMTP settings from their variables; the host, user and password
/// must be set and not empty.
pub fn smtp_settings(host: &str, port: Option<&str>, user: &str, pass: &str) -> (r: Result<SmtpSettings, String>)
    ensures
        host@.len() == 0 || user@.len() == 0 || pass@.len() == 0 ==> (r matches Err(e)
            && e@ == "SMTP 未配置，请在 src-tauri/.env 中设置 SMTP_HOST/SMTP_USER/SMTP_PASS"@),
        host@.len() > 0 && user@.len() > 0 && pass@.len() > 0 ==> (r matches Ok(s) && s.host@ == host@
            && s.user@ == user@ && s.pass@ == pass@ && s.port == smtp_port_value(
            match port {
                Some(p) => Some(p@),
                None => None,
            },
        )),
{
    let p: u16 = match port {
        Some(v) => match parse_port(v) {
            Some(n) => n,
            None => 465,
        },
        None => 465,
    };
    if chars_of(host).len() == 0 || chars_of(user).len() == 0 || chars_of(pass).len() == 0 {
        return Err(String::from_str("SMTP 未配置，请在 src-tauri/.env 中设置 SMTP_HOST/SMTP_USER/SMTP_PASS"));
    }
    Ok(SmtpSettings { host: String::from_str(host), port: p, user: String::from_str(user), pass: String::from_str(pass) })
}

/// The sender of the mail: `AI Listen RS <{user}>`.
pub open spec fn sender_text(user: Seq<char>) -> Seq<char> {
    "AI Listen RS <"@ + user + ">"@
}

pub fn sender(user: &str) -> (r: String)
    ensures
        r@ == sender_text(user@),
{
    let mut out: Vec<char> = Vec::new();
    push_str(&mut out, "AI Listen RS <");
    push_str(&mut out, user);
    push_str(&mut out, ">");
    string_of(&out)
}

/// The body of the mail that carries a code.
pub open spec fn email_body_text(code: Seq<char>) -> Seq<char> {
    "您好，\n\n您的验证码是："@ + code + "\n\n验证码 5 分钟内有效，请勿泄露给他人。\n\nAI Listen RS 团队"@
}

pub fn verification_email_body(code: &str) -> (r: String)
    ensures
        r@ == email_body_text(code@),
{
    let mut out: Vec<char> = Vec::new();
    push_str(&mut out, "您好，\n\n您的验证码是：");
    push_str(&mut out, code);
    push_str(&mut out, "\n\n验证码 5 分钟内有效，请勿泄露给他人。\n\nAI Listen RS 团队");
    string_of(&out)
}

/// The text-message services the app can use.
pub enum SmsProvider {
    Aliyun,
    Tencent,
}

/// The service named by the settings: all three variables must be set and
/// not empty, and the name known.
pub fn sms_route(provider: &str, access_key: &str, secret_key: &str) -> (r: Result<SmsProvider, String>)
    ensures
        provider@.len() == 0 || access_key@.len() == 0 || secret_key@.len() == 0 ==> (r matches Err(e)
            && e@ == "短信服务未配置"@),
        provider@.len() > 0 && access_key@.len() > 0 && secret_key@.len() > 0 ==> {
            if provider@ == "aliyun"@ {
                r matches Ok(SmsProvider::Aliyun)
            } else if provider@ == "tencent"@ {
                r matches Ok(SmsProvider::Tencent)
            } else {
                r matches Err(e) && e@ == "不支持的短信服务商: "@ + provider@
            }
        },
{
    if chars_of(provider).len() == 0 || chars_of(access_key).len() == 0 || chars_of(secret_key).len() == 0 {
        return Err(String::from_str("短信服务未配置"));
    }
    if same_text(provider, "aliyun") {
        Ok(SmsProvider::Aliyun)
    } else if same_text(provider, "tencent") {
        Ok(SmsProvider::Tencent)
    } else {
        let mut out: Vec<char> = Vec::new();
        push_str(&mut out, "不支持的短信服务商: ");
        push_str(&mut out, provider);
        Err(string_of(&out))
    }
}

/// The template parameter of an Aliyun message: `{"code":"{code}"}`.
pub open spec fn aliyun_param_text(code: Seq<char>) -> Seq<char> {
    "{\"code\":\""@ + code + "\"}"@
}

pub fn aliyun_template_param(code: &str) -> (r: String)
    ensures
        r@ == aliyun_param_text(code@),
{
    let mut out: Vec<char> = Vec::new();
    push_str(&mut out, "{\"code\":\"");
    push_str(&mut out, code);
    push_str(&mut out, "\"}");
    string_of(&out)
}

/// Tencent Cloud needs the application and the template.
pub fn tencent_config_check(sdk_app_id: &str, template_id: &str) -> (r: Result<(), String>)
    ensures
        sdk_app_id@.len() == 0 || template_id@.len() == 0 ==> (r matches Err(e) && e@ == "腾讯云短信配置不完整"@),
        sdk_app_id@.len() > 0 && template_id@.len() > 0 ==> r is Ok,
{
    if chars_of(sdk_app_id).len() == 0 || chars_of(template_id).len() == 0 {
        Err(String::from_str("腾讯云短信配置不完整"))
    } else {
        Ok(())
    }
}

} // verus!
