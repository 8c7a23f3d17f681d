//! Accounts: registration, sign-in, and the verification codes sent by mail
//! or text message.
use rand::Rng;
use vstd::prelude::*;
use vstd::utf8::encode_utf8;
use crate::text::{
    boundary_index, byte_len, chars_of, decimal, index_at_byte, is_boundary, push_all, push_decimal,
    push_str, string_of, utf8_len,
};

verus! {

/// A registered user.
pub struct User {
    pub id: String,
    pub username: String,
    pub email: Option<String>,
    pub phone: Option<String>,
    pub password_hash: String,
    pub created_at: String,
    pub is_vip: bool,
    pub provider: Option<String>,
    pub provider_user_id: Option<String>,
    pub avatar: Option<String>,
}

fn clone_opt(o: &Option<String>) -> (r: Option<String>)
    ensures
        r == *o,
{
    match o {
        Some(s) => Some(s.clone()),
        None => None,
    }
}

impl Clone for User {
    fn clone(&self) -> (r: Self)
        ensures
            r == *self,
    {
        User {
            id: self.id.clone(),
            username: self.username.clone(),
            email: clone_opt(&self.email),
            phone: clone_opt(&self.phone),
            password_hash: self.password_hash.clone(),
            created_at: self.created_at.clone(),
            is_vip: self.is_vip,
            provider: clone_opt(&self.provider),
            provider_user_id: clone_opt(&self.provider_user_id),
            avatar: clone_opt(&self.avatar),
        }
    }
}

/// A code sent to an e-mail address or a phone, valid for five minutes.
pub struct VerificationCode {
    pub code: String,
    pub target: String,
    pub created_at: u64,
    pub expires_at: u64,
    pub used: bool,
}

/// The answer to a sign-in.
pub struct AuthResult {
    pub success: bool,
    pub message: String,
    pub user: Option<User>,
}

/// The stored users and the number the next one gets.
pub struct UserDatabase {
    pub users: Vec<User>,
    pub next_id: u64,
}

impl UserDatabase {
    /// An empty database: no users, the first one gets number 1.
    pub fn new() -> (db: Self)
        ensures
            db.users@.len() == 0,
            db.next_id == 1,
    {
        UserDatabase { users: Vec::new(), next_id: 1 }
    }
}

/// The value of a hexadecimal digit, lowercase.
pub open spec fn hex_digit_char(d: nat) -> char {
    if d < 10 {
        ((d as u32) + 48) as char
    } else {
        ((d as u32) + 87) as char
    }
}

/// The lowercase hexadecimal form of `n` (`{:x}`).
pub open spec fn hex(n: nat) -> Seq<char>
    decreases n,
{
    if n < 16 {
        seq![hex_digit_char(n)]
    } else {
        hex(n / 16).push(hex_digit_char(n % 16))
    }
}

fn hex_digit(d: u64) -> (c: char)
    requires
        d < 16,
    ensures
        c == hex_digit_char(d as nat),
{
    if d < 10 {
        ((d as u8) + 48) as char
    } else {
        ((d as u8) + 87) as char
    }
}

fn push_hex(acc: &mut Vec<char>, n: u64)
    ensures
        final(acc)@ == old(acc)@ + hex(n as nat),
    decreases n,
{
    if n < 16 {
        acc.push(hex_digit(n));
    } else {
        push_hex(acc, n / 16);
        acc.push(hex_digit(n % 16));
        proof {
            assert(old(acc)@ + hex(n as nat) == old(acc)@ + hex((n / 16) as nat) + seq![
                hex_digit_char((n % 16) as nat)]);
        }
    }
}

/// The djb2 hash of bytes: start at 5381, then `h * 33 + byte` for each byte,
/// wrapping at 2^64.
pub open spec fn djb2(bytes: Seq<u8>) -> u64
    decreases bytes.len(),
{
    if bytes.len() == 0 {
        5381
    } else {
        djb2(bytes.drop_last()).wrapping_mul(33).wrapping_add(bytes.last() as u64)
    }
}

/// The stored form of a password: the djb2 hash of its UTF-8 bytes in
/// lowercase hexadecimal, then `_ai_listen_salt`.
pub open spec fn password_hash_text(password: Seq<char>) -> Seq<char> {
    hex(djb2(encode_utf8(password)) as nat) + "_ai_listen_salt"@
}

pub fn hash_password(password: &str) -> (r: String)
    ensures
        r@ == password_hash_text(password@),
{
    let bytes = password.as_bytes();
    let mut hash: u64 = 5381;
    let mut i: usize = 0;
    while i < bytes.len()
        invariant
            i <= bytes@.len(),
            bytes@ == encode_utf8(password@),
            hash == djb2(bytes@.take(i as int)),
        decreases bytes.len() - i,
    {
        proof {
            assert(bytes@.take(i + 1).drop_last() == bytes@.take(i as int));
        }
        hash = hash.wrapping_mul(33).wrapping_add(bytes[i] as u64);
        i += 1;
    }
    proof {
        assert(bytes@.take(bytes@.len() as int) == bytes@);
    }
    let mut out: Vec<char> = Vec::new();
    push_hex(&mut out, hash);
    push_str(&mut out, "_ai_listen_salt");
    string_of(&out)
}

/// The UTF-8 length of a password is 6 to 20 bytes.
pub open spec fn password_length_ok(password: Seq<char>) -> bool {
    6 <= byte_len(password) <= 20
}

pub open spec fn opt_is(o: Option<String>, s: Seq<char>) -> bool {
    o matches Some(x) && x@ == s
}

/// How a sign-in finds its user.
pub enum LoginKey {
    Email,
    Phone,
    UsernameOrPhone,
}

pub open spec fn user_matches(u: User, key: LoginKey, id: Seq<char>) -> bool {
    match key {
        LoginKey::Email => opt_is(u.email, id),
        LoginKey::Phone => opt_is(u.phone, id),
        LoginKey::UsernameOrPhone => u.username@ == id || opt_is(u.phone, id),
    }
}

/// The first user at or after `i` that the key finds.
pub open spec fn first_match_from(users: Seq<User>, key: LoginKey, id: Seq<char>, i: int) -> Option<int>
    decreases users.len() - i,
{
    if i < 0 || i >= users.len() {
        None
    } else if user_matches(users[i], key, id) {
        Some(i)
    } else {
        first_match_from(users, key, id, i + 1)
    }
}

pub open spec fn first_match(users: Seq<User>, key: LoginKey, id: Seq<char>) -> Option<int> {
    first_match_from(users, key, id, 0)
}

pub proof fn lemma_first_match_from(users: Seq<User>, key: LoginKey, id: Seq<char>, i: int)
    requires
        0 <= i,
    ensures
        first_match_from(users, key, id, i) matches Some(j) ==> i <= j < users.len() && user_matches(users[j], key, id)
            && forall|m: int| i <= m < j ==> !user_matches(#[trigger] users[m], key, id),
        first_match_from(users, key, id, i) is None ==> forall|m: int| i <= m < users.len() ==> !user_matches(#[trigger] users[m], key, id),
    decreases users.len() - i,
{
    if i < users.len() && !user_matches(users[i], key, id) {
        lemma_first_match_from(users, key, id, i + 1);
    }
}

fn opt_equals(o: &Option<String>, s: &str) -> (b: bool)
    ensures
        b == opt_is(*o, s@),
{
    match o {
        Some(x) => {
            let t = String::from_str(s);
            *x == t
        },
        None => false,
    }
}

fn matches_key(u: &User, key: &LoginKey, id: &str) -> (b: bool)
    ensures
        b == user_matches(*u, *key, id@),
{
    match key {
        LoginKey::Email => opt_equals(&u.email, id),
        LoginKey::Phone => opt_equals(&u.phone, id),
        LoginKey::UsernameOrPhone => {
            let t = String::from_str(id);
            u.username == t || opt_equals(&u.phone, id)
        },
    }
}

fn find_user(users: &Vec<User>, key: &LoginKey, id: &str) -> (r: Option<usize>)
    ensures
        r matches Some(i) ==> first_match(users@, *key, id@) == Some(i as int),
        r is None ==> first_match(users@, *key, id@) is None,
{
    let mut i: usize = 0;
    while i < users.len()
        invariant
            i <= users.len(),
            first_match(users@, *key, id@) == first_match_from(users@, *key, id@, i as int),
        decreases users.len() - i,
    {
        if matches_key(&users[i], key, id) {
            return Some(i);
        }
        i += 1;
    }
    None
}

/// The answer a sign-in gives: the user when the password's hash matches,
/// else the message for a wrong password or an unknown user.
pub open spec fn login_result(
    r: AuthResult,
    users: Seq<User>,
    key: LoginKey,
    id: Seq<char>,
    password: Seq<char>,
    not_found: Seq<char>,
) -> bool {
    match first_match(users, key, id) {
        None => !r.success && r.message@ == not_found && r.user is None,
        Some(i) => if users[i].password_hash@ == password_hash_text(password) {
            r.success && r.message@ == "登录成功"@ && r.user == Some(users[i])
        } else {
            !r.success && r.message@ == "密码错误"@ && r.user is None
        },
    }
}

fn login(db: &UserDatabase, key: LoginKey, id: &str, password: &str, not_found: &str) -> (r: AuthResult)
    ensures
        login_result(r, db.users@, key, id@, password@, not_found@),
{
    let found = find_user(&db.users, &key, id);
    proof {
        lemma_first_match_from(db.users@, key, id@, 0);
    }
    match found {
        None => AuthResult { success: false, message: String::from_str(not_found), user: None },
        Some(i) => {
            let h = hash_password(password);
            if db.users[i].password_hash == h {
                AuthResult {
                    success: true,
                    message: String::from_str("登录成功"),
                    user: Some(db.users[i].clone()),
                }
            } else {
                AuthResult { success: false, message: String::from_str("密码错误"), user: None }
            }
        },
    }
}

/// Signs in with an e-mail address.
pub fn login_email(db: &UserDatabase, email: &str, password: &str) -> (r: AuthResult)
    ensures
        login_result(r, db.users@, LoginKey::Email, email@, password@, "该邮箱未注册"@),
{
    login(db, LoginKey::Email, email, password, "该邮箱未注册")
}

/// Signs in with a phone number.
pub fn login_phone(db: &UserDatabase, phone: &str, password: &str) -> (r: AuthResult)
    ensures
        login_result(r, db.users@, LoginKey::Phone, phone@, password@, "该手机号未注册"@),
{
    login(db, LoginKey::Phone, phone, password, "该手机号未注册")
}

/// Signs in with a user name or a phone number: the first user with either.
pub fn login_username(db: &UserDatabase, identifier: &str, password: &str) -> (r: AuthResult)
    ensures
        login_result(r, db.users@, LoginKey::UsernameOrPhone, identifier@, password@, "用户不存在"@),
{
    login(db, LoginKey::UsernameOrPhone, identifier, password, "用户不存在")
}

/// The answer to a registration: the new user, or the reason it was refused.
pub fn registration_result(r: Result<User, String>) -> (a: AuthResult)
    ensures
        match r {
            Ok(u) => a.success && a.message@ == "注册成功"@ && a.user == Some(u),
            Err(e) => !a.success && a.message@ == e@ && a.user is None,
        },
{
    match r {
        Ok(user) => AuthResult { success: true, message: String::from_str("注册成功"), user: Some(user) },
        Err(e) => AuthResult { success: false, message: e, user: None },
    }
}

/// The part of an e-mail address before its first `@` (all of it if there
/// is none).
pub open spec fn before_at(s: Seq<char>) -> Seq<char>
    decreases s.len(),
{
    if s.len() == 0 || s[0] == '@' {
        seq![]
    } else {
        seq![s[0]] + before_at(s.drop_first())
    }
}

fn before_at_exec(s: &str) -> (r: Vec<char>)
    ensures
        r@ == before_at(s@),
{
    let cs = chars_of(s);
    let mut i: usize = 0;
    proof {
        assert(cs@.take(0) + before_at(cs@.skip(0)) == before_at(cs@)) by {
            assert(cs@.skip(0) == cs@);
            assert(cs@.take(0) =~= Seq::<char>::empty());
        }
    }
    while i < cs.len() && cs[i] != '@'
        invariant
            i <= cs.len(),
            cs@.take(i as int) + before_at(cs@.skip(i as int)) == before_at(cs@),
        decreases cs.len() - i,
    {
        proof {
            let rest = cs@.skip(i as int);
            assert(rest[0] == cs@[i as int]);
            assert(rest.drop_first() == cs@.skip(i + 1));
            assert(cs@.take(i + 1) == cs@.take(i as int) + seq![cs@[i as int]]);
        }
        i += 1;
    }
    proof {
        if i < cs.len() {
            assert(cs@.skip(i as int)[0] == '@');
        }
    }
    crate::text::slice_chars(&cs, 0, i)
}

/// The id of the user with number `n`: `user_{n}`.
pub open spec fn user_id_text(n: nat) -> Seq<char> {
    "user_"@ + decimal(n)
}

pub fn user_id(n: u64) -> (r: String)
    ensures
        r@ == user_id_text(n as nat),
{
    let mut out: Vec<char> = Vec::new();
    push_str(&mut out, "user_");
    push_decimal(&mut out, n as u128);
    string_of(&out)
}

/// A user made by a registration: id `user_{n}`, the given name, address,
/// phone and password hash, no VIP, no provider, no avatar.
pub open spec fn registered_user(
    u: User,
    n: nat,
    username: Seq<char>,
    email: Option<Seq<char>>,
    phone: Option<Seq<char>>,
    password: Seq<char>,
    created_at: Seq<char>,
) -> bool {
    &&& u.id@ == user_id_text(n)
    &&& u.username@ == username
    &&& match email {
        Some(e) => opt_is(u.email, e),
        None => u.email is None,
    }
    &&& match phone {
        Some(p) => opt_is(u.phone, p),
        None => u.phone is None,
    }
    &&& u.password_hash@ == password_hash_text(password)
    &&& u.created_at@ == created_at
    &&& !u.is_vip
    &&& u.provider is None
    &&& u.provider_user_id is None
    &&& u.avatar is None
}

/// A value is taken when some user has it under the key.
pub open spec fn taken(users: Seq<User>, key: LoginKey, id: Seq<char>) -> bool {
    exists|i: int| 0 <= i < users.len() && user_matches(#[trigger] users[i], key, id)
}

fn is_taken(users: &Vec<User>, key: LoginKey, id: &str) -> (b: bool)
    ensures
        b == taken(users@, key, id@),
{
    let r = find_user(users, &key, id);
    proof {
        lemma_first_match_from(users@, key, id@, 0);
    }
    r.is_some()
}

fn add_user(db: &mut UserDatabase, u: User)
    requires
        old(db).next_id < u64::MAX,
    ensures
        final(db).users@ == old(db).users@.push(u),
        final(db).next_id == old(db).next_id + 1,
{
    db.next_id = db.next_id + 1;
    db.users.push(u);
}

/// Registers an e-mail address.
pub fn register_email(db: &mut UserDatabase, email: &str, password: &str, created_at: &str) -> (r: Result<User, String>)
    requires
        password_length_ok(password@) && !taken(old(db).users@, LoginKey::Email, email@) ==> old(db).next_id < u64::MAX,
    ensures
        !password_length_ok(password@) ==> (r matches Err(e) && e@ == "密码长度为6-20位"@ && *final(db) == *old(db)),
        password_length_ok(password@) && taken(old(db).users@, LoginKey::Email, email@) ==> (r matches Err(e) && e@ == "该邮箱已注册"@ && *final(db) == *old(db)),
        password_length_ok(password@) && !taken(old(db).users@, LoginKey::Email, email@) ==> (r matches Ok(u)
            && registered_user(u, old(db).next_id as nat, before_at(email@), Some(email@), None, password@, created_at@)
            && final(db).users@ == old(db).users@.push(u) && final(db).next_id == old(db).next_id + 1),
{
    let plen = utf8_len(password);
    if plen < 6 || plen > 20 {
        return Err(String::from_str("密码长度为6-20位"));
    }
    if is_taken(&db.users, LoginKey::Email, email) {
        return Err(String::from_str("该邮箱已注册"));
    }
    let name = before_at_exec(email);
    let user = User {
        id: user_id(db.next_id),
        username: string_of(&name),
        email: Some(String::from_str(email)),
        phone: None,
        password_hash: hash_password(password),
        created_at: String::from_str(created_at),
        is_vip: false,
        provider: None,
        provider_user_id: None,
        avatar: None,
    };
    add_user(db, user.clone());
    Ok(user)
}

/// The byte where the last four bytes of a text start (0 when shorter).
pub open spec fn last_four_start(s: Seq<char>) -> nat {
    if byte_len(s) >= 4 {
        (byte_len(s) - 4) as nat
    } else {
        0
    }
}

/// The last four bytes of a phone number (all of it when shorter), as text.
pub open spec fn phone_suffix(phone: Seq<char>) -> Seq<char> {
    phone.skip(boundary_index(phone, last_four_start(phone)))
}

/// The byte where the last four bytes start falls between two chars (else
/// slicing the number panics).
pub open spec fn phone_suffix_fits(phone: Seq<char>) -> bool {
    is_boundary(phone, last_four_start(phone))
}

/// Registers a phone number; the user name is `user_` and the number's last
/// four bytes.
pub fn register_phone(db: &mut UserDatabase, phone: &str, password: &str, created_at: &str) -> (r: Result<User, String>)
    requires
        password_length_ok(password@) && !taken(old(db).users@, LoginKey::Phone, phone@) ==> old(db).next_id < u64::MAX
            && phone_suffix_fits(phone@),
    ensures
        !password_length_ok(password@) ==> (r matches Err(e) && e@ == "密码长度为6-20位"@ && *final(db) == *old(db)),
        password_length_ok(password@) && taken(old(db).users@, LoginKey::Phone, phone@) ==> (r matches Err(e) && e@ == "该手机号已注册"@ && *final(db) == *old(db)),
        password_length_ok(password@) && !taken(old(db).users@, LoginKey::Phone, phone@) ==> (r matches Ok(u)
            && registered_user(u, old(db).next_id as nat, "user_"@ + phone_suffix(phone@), None, Some(phone@), password@, created_at@)
            && final(db).users@ == old(db).users@.push(u) && final(db).next_id == old(db).next_id + 1),
{
    let plen = utf8_len(password);
    if plen < 6 || plen > 20 {
        return Err(String::from_str("密码长度为6-20位"));
    }
    if is_taken(&db.users, LoginKey::Phone, phone) {
        return Err(String::from_str("该手机号已注册"));
    }
    let pc = chars_of(phone);
    let n = utf8_len(phone);
    let start: u128 = if n >= 4 { n - 4 } else { 0 };
    let k = match index_at_byte(&pc, start) {
        Some(k) => k,
        None => {
            proof {
                assert(false);
            }
            0
        },
    };
    proof {
        crate::text::lemma_boundary_index(pc@, start as nat, k as int);
    }
    let tail = crate::text::slice_chars(&pc, k, pc.len());
    proof {
        assert(tail@ == phone@.skip(k as int));
    }
    let mut name: Vec<char> = Vec::new();
    push_str(&mut name, "user_");
    push_all(&mut name, &tail);
    let user = User {
        id: user_id(db.next_id),
        username: string_of(&name),
        email: None,
        phone: Some(String::from_str(phone)),
        password_hash: hash_password(password),
        created_at: String::from_str(created_at),
        is_vip: false,
        provider: None,
        provider_user_id: None,
        avatar: None,
    };
    add_user(db, user.clone());
    Ok(user)
}

/// The UTF-8 length of a user name is 2 to 20 bytes.
pub open spec fn username_length_ok(username: Seq<char>) -> bool {
    2 <= byte_len(username) <= 20
}

/// A user name is taken when some user has it as their name.
pub open spec fn username_taken(users: Seq<User>, username: Seq<char>) -> bool {
    exists|i: int| 0 <= i < users.len() && (#[trigger] users[i]).username@ == username
}

/// Registers a user name.
pub fn register_username(db: &mut UserDatabase, username: &str, password: &str, created_at: &str) -> (r: Result<User, String>)
    requires
        password_length_ok(password@) && username_length_ok(username@) && !username_taken(old(db).users@, username@)
            ==> old(db).next_id < u64::MAX,
    ensures
        !password_length_ok(password@) ==> (r matches Err(e) && e@ == "密码长度为6-20位"@ && *final(db) == *old(db)),
        password_length_ok(password@) && !username_length_ok(username@) ==> (r matches Err(e) && e@ == "用户名为2-20个字符"@ && *final(db) == *old(db)),
        password_length_ok(password@) && username_length_ok(username@) && username_taken(old(db).users@, username@)
            ==> (r matches Err(e) && e@ == "该用户名已被占用"@ && *final(db) == *old(db)),
        password_length_ok(password@) && username_length_ok(username@) && !username_taken(old(db).users@, username@)
            ==> (r matches Ok(u) && registered_user(u, old(db).next_id as nat, username@, None, None, password@, created_at@)
            && final(db).users@ == old(db).users@.push(u) && final(db).next_id == old(db).next_id + 1),
{
    let plen = utf8_len(password);
    if plen < 6 || plen > 20 {
        return Err(String::from_str("密码长度为6-20位"));
    }
    let ulen = utf8_len(username);
    if ulen < 2 || ulen > 20 {
        return Err(String::from_str("用户名为2-20个字符"));
    }
    let mut i: usize = 0;
    let t = String::from_str(username);
    while i < db.users.len()
        invariant
            i <= db.users@.len(),
            t@ == username@,
            *db == *old(db),
            password_length_ok(password@),
            username_length_ok(username@),
            forall|j: int| 0 <= j < i ==> (#[trigger] db.users@[j]).username@ != username@,
        decreases db.users.len() - i,
    {
        if db.users[i].username == t {
            return Err(String::from_str("该用户名已被占用"));
        }
        i += 1;
    }
    assert(!username_taken(db.users@, username@));
    let user = User {
        id: user_id(db.next_id),
        username: String::from_str(username),
        email: None,
        phone: None,
        password_hash: hash_password(password),
        created_at: String::from_str(created_at),
        is_vip: false,
        provider: None,
        provider_user_id: None,
        avatar: None,
    };
    add_user(db, user.clone());
    Ok(user)
}


/// What is kept for one target: the code, when it was made, when it
/// expires, and whether it was used.
pub struct CodeState {
    pub code: Seq<char>,
    pub created_at: u64,
    pub expires_at: u64,
    pub used: bool,
}

pub open spec fn code_state(c: VerificationCode) -> CodeState {
    CodeState { code: c.code@, created_at: c.created_at, expires_at: c.expires_at, used: c.used }
}

/// No two codes are kept for one target.
pub open spec fn targets_unique(s: Seq<VerificationCode>) -> bool {
    forall|i: int, j: int| 0 <= i < s.len() && 0 <= j < s.len() && i != j ==> (#[trigger] s[i]).target@ != (#[trigger] s[j]).target@
}

/// The place of the code for a target.
pub open spec fn target_index(s: Seq<VerificationCode>, t: Seq<char>) -> int {
    choose|i: int| 0 <= i < s.len() && s[i].target@ == t
}

/// The codes by target.
pub open spec fn codes_by_target(s: Seq<VerificationCode>) -> Map<Seq<char>, CodeState> {
    Map::new(
        |t: Seq<char>| exists|i: int| 0 <= i < s.len() && s[i].target@ == t,
        |t: Seq<char>| code_state(s[target_index(s, t)]),
    )
}

pub proof fn lemma_codes_by_target_at(s: Seq<VerificationCode>, i: int)
    requires
        targets_unique(s),
        0 <= i < s.len(),
    ensures
        codes_by_target(s).contains_key(s[i].target@),
        codes_by_target(s)[s[i].target@] == code_state(s[i]),
{
    let t = s[i].target@;
    assert(codes_by_target(s).dom().contains(t));
    let j = target_index(s, t);
    assert(0 <= j < s.len() && s[j].target@ == t);
}

/// The verification codes that were sent, by the e-mail address or phone
/// number they were sent to.
pub struct CodeBook {
    entries: Vec<VerificationCode>,
}

impl CodeBook {
    #[verifier::type_invariant]
    spec fn well_formed(self) -> bool {
        &&& targets_unique(self.entries@)
    }

    pub closed spec fn items(&self) -> Seq<VerificationCode> {
        self.entries@
    }

    /// The codes by target.
    pub open spec fn view(&self) -> Map<Seq<char>, CodeState> {
        codes_by_target(self.items())
    }

    /// No code sent yet.
    pub fn new() -> (r: Self)
        ensures
            r@ == Map::<Seq<char>, CodeState>::empty(),
    {
        let r = CodeBook { entries: Vec::new() };
        proof {
            assert(r@ =~= Map::<Seq<char>, CodeState>::empty());
        }
        r
    }

    /// Where the code for this target is kept.
    fn find(&self, target: &str) -> (r: Option<usize>)
        ensures
            r matches Some(i) ==> i < self.items().len() && self.items()[i as int].target@ == target@
                && self@.contains_key(target@) && self@[target@] == code_state(self.items()[i as int]),
            r is None ==> !self@.contains_key(target@),
    {
        proof {
            use_type_invariant(self);
        }
        let t = String::from_str(target);
        let mut i: usize = 0;
        while i < self.entries.len()
            invariant
                i <= self.entries@.len(),
                t@ == target@,
                targets_unique(self.entries@),
                forall|j: int| 0 <= j < i ==> (#[trigger] self.entries@[j]).target@ != target@,
            decreases self.entries.len() - i,
        {
            if self.entries[i].target == t {
                proof {
                    lemma_codes_by_target_at(self.entries@, i as int);
                }
                return Some(i);
            }
            i += 1;
        }
        None
    }

    /// Keeps `c` for its target, in place of what was kept for it.
    fn put(&mut self, c: VerificationCode)
        ensures
            final(self)@ == old(self)@.insert(c.target@, code_state(c)),
    {
        proof {
            use_type_invariant(&*self);
        }
        let found = self.find(c.target.as_str());
        let ghost old_s = self.entries@;
        let ghost t = c.target@;
        let ghost st = code_state(c);
        let mut v: Vec<VerificationCode> = Vec::new();
        std::mem::swap(&mut v, &mut self.entries);
        match found {
            Some(k) => {
                v.set(k, c);
                proof {
                    let s = v@;
                    assert(targets_unique(s)) by {
                        assert forall|i: int, j: int| 0 <= i < s.len() && 0 <= j < s.len() && i != j implies (#[trigger] s[i]).target@ != (#[trigger] s[j]).target@ by {
                            assert(s[i].target@ == old_s[i].target@ && s[j].target@ == old_s[j].target@);
                        }
                    }
                    assert(codes_by_target(s) =~= codes_by_target(old_s).insert(t, st)) by {
                        assert forall|x: Seq<char>| #[trigger] codes_by_target(s).contains_key(x) <==> codes_by_target(old_s).insert(t, st).contains_key(x) by {
                            if codes_by_target(s).contains_key(x) {
                                let i = choose|i: int| 0 <= i < s.len() && s[i].target@ == x;
                                assert(old_s[i].target@ == x);
                            }
                            if codes_by_target(old_s).contains_key(x) {
                                let i = choose|i: int| 0 <= i < old_s.len() && old_s[i].target@ == x;
                                assert(s[i].target@ == x);
                            }
                            if x == t {
                                assert(s[k as int].target@ == x);
                            }
                        }
                        assert forall|x: Seq<char>| #[trigger] codes_by_target(s).contains_key(x) implies codes_by_target(s)[x] == codes_by_target(old_s).insert(t, st)[x] by {
                            let i = target_index(s, x);
                            assert(0 <= i < s.len() && s[i].target@ == x);
                            lemma_codes_by_target_at(s, i);
                            if i != k {
                                assert(old_s[i] == s[i]);
                                lemma_codes_by_target_at(old_s, i);
                            }
                        }
                    }
                }
            },
            None => {
                v.push(c);
                proof {
                    let s = v@;
                    assert(s == old_s.push(c));
                    assert forall|i: int| 0 <= i < old_s.len() implies (#[trigger] old_s[i]).target@ != t by {
                        lemma_codes_by_target_at(old_s, i);
                    }
                    assert(targets_unique(s)) by {
                        assert forall|i: int, j: int| 0 <= i < s.len() && 0 <= j < s.len() && i != j implies (#[trigger] s[i]).target@ != (#[trigger] s[j]).target@ by {
                            if i < old_s.len() && j < old_s.len() {
                                assert(s[i] == old_s[i] && s[j] == old_s[j]);
                            } else if i < old_s.len() {
                                assert(s[i] == old_s[i]);
                            } else {
                                assert(s[j] == old_s[j]);
                            }
                        }
                    }
                    assert(codes_by_target(s) =~= codes_by_target(old_s).insert(t, st)) by {
                        assert forall|x: Seq<char>| #[trigger] codes_by_target(s).contains_key(x) <==> codes_by_target(old_s).insert(t, st).contains_key(x) by {
                            if codes_by_target(s).contains_key(x) {
                                let i = choose|i: int| 0 <= i < s.len() && s[i].target@ == x;
                                if i < old_s.len() {
                                    assert(old_s[i].target@ == x);
                                }
                            }
                            if codes_by_target(old_s).contains_key(x) {
                                let i = choose|i: int| 0 <= i < old_s.len() && old_s[i].target@ == x;
                                assert(s[i].target@ == x);
                            }
                            if x == t {
                                assert(s[old_s.len() as int].target@ == x);
                            }
                        }
                        assert forall|x: Seq<char>| #[trigger] codes_by_target(s).contains_key(x) implies codes_by_target(s)[x] == codes_by_target(old_s).insert(t, st)[x] by {
                            let i = target_index(s, x);
                            assert(0 <= i < s.len() && s[i].target@ == x);
                            lemma_codes_by_target_at(s, i);
                            if i < old_s.len() {
                                assert(old_s[i] == s[i]);
                                lemma_codes_by_target_at(old_s, i);
                            }
                        }
                    }
                }
            },
        }
        self.entries = v;
    }

    /// Forgets the code for a target.
    fn forget(&mut self, target: &str)
        ensures
            final(self)@ == old(self)@.remove(target@),
    {
        proof {
            use_type_invariant(&*self);
        }
        let found = self.find(target);
        match found {
            None => {
                proof {
                    assert(self@ =~= old(self)@.remove(target@));
                }
            },
            Some(k) => {
                let ghost old_s = self.entries@;
                let ghost t = target@;
                let mut v: Vec<VerificationCode> = Vec::new();
                std::mem::swap(&mut v, &mut self.entries);
                v.remove(k);
                proof {
                    let s = v@;
                    assert(s == old_s.remove(k as int));
                    assert(targets_unique(s)) by {
                        assert forall|i: int, j: int| 0 <= i < s.len() && 0 <= j < s.len() && i != j implies (#[trigger] s[i]).target@ != (#[trigger] s[j]).target@ by {
                            let oi = if i < k { i } else { i + 1 };
                            let oj = if j < k { j } else { j + 1 };
                            assert(s[i] == old_s[oi] && s[j] == old_s[oj]);
                        }
                    }
                    assert(codes_by_target(s) =~= codes_by_target(old_s).remove(t)) by {
                        assert forall|x: Seq<char>| #[trigger] codes_by_target(s).contains_key(x) <==> codes_by_target(old_s).remove(t).contains_key(x) by {
                            if codes_by_target(s).contains_key(x) {
                                let i = choose|i: int| 0 <= i < s.len() && s[i].target@ == x;
                                let oi = if i < k { i } else { i + 1 };
                                assert(old_s[oi].target@ == x);
                                assert(oi != k);
                            }
                            if codes_by_target(old_s).contains_key(x) && x != t {
                                let i = choose|i: int| 0 <= i < old_s.len() && old_s[i].target@ == x;
                                assert(i != k);
                                if i < k {
                                    assert(s[i].target@ == x);
                                } else {
                                    assert(s[i - 1].target@ == x);
                                }
                            }
                        }
                        assert forall|x: Seq<char>| #[trigger] codes_by_target(s).contains_key(x) implies codes_by_target(s)[x] == codes_by_target(old_s).remove(t)[x] by {
                            let i = target_index(s, x);
                            assert(0 <= i < s.len() && s[i].target@ == x);
                            lemma_codes_by_target_at(s, i);
                            let oi = if i < k { i } else { i + 1 };
                            assert(old_s[oi] == s[i]);
                            lemma_codes_by_target_at(old_s, oi);
                        }
                    }
                }
                self.entries = v;
            },
        }
    }
}


/// `rand::Rng::gen_range(100000..999999)` on `rand::thread_rng()`: the
/// source asserts that the range is not empty and returns a number in it;
/// which number is chance, so nothing more is stated.
#[verifier::external_body]
fn random_code_number() -> (n: u32)
    ensures
        100000 <= n < 999999,
{
    rand::thread_rng().gen_range(100000u32..999999u32)
}

/// A code is the six decimal digits of a number from 100000 to 999998.
pub open spec fn is_code_text(s: Seq<char>) -> bool {
    exists|n: nat| 100000 <= n < 999999 && s == #[trigger] decimal(n)
}

/// A fresh six-digit code (`{:06}` of a random number).
pub fn generate_code() -> (c: String)
    ensures
        is_code_text(c@),
{
    let n = random_code_number();
    let mut out: Vec<char> = Vec::new();
    push_decimal(&mut out, n as u128);
    assert(out@ == decimal(n as nat));
    string_of(&out)
}

/// A code for the target is unused, not expired at `now`, and younger than a
/// minute: a new one is refused.
pub open spec fn rate_limited(book: Map<Seq<char>, CodeState>, target: Seq<char>, now: u64) -> bool {
    &&& book.contains_key(target)
    &&& !book[target].used
    &&& now < book[target].expires_at
    &&& now - book[target].created_at < 60
}

/// An unused, unexpired code for the target was not made after `now`.
pub open spec fn clock_consistent(book: Map<Seq<char>, CodeState>, target: Seq<char>, now: u64) -> bool {
    book.contains_key(target) && !book[target].used && now < book[target].expires_at
        ==> book[target].created_at <= now
}

/// `验证码已发送，请 {60 - elapsed}s 后重试`.
pub open spec fn wait_message(book: Map<Seq<char>, CodeState>, target: Seq<char>, now: u64) -> Seq<char> {
    "验证码已发送，请 "@ + decimal((60 - (now - book[target].created_at)) as nat) + "s 后重试"@
}

/// A code made at `now`: unused, valid for five minutes.
pub open spec fn fresh_code(code: Seq<char>, now: u64) -> CodeState {
    CodeState { code, created_at: now, expires_at: (now + 300) as u64, used: false }
}

fn issue_code(book: &mut CodeBook, target: &str, now: u64) -> (r: Result<String, String>)
    requires
        now <= u64::MAX - 300,
        clock_consistent(old(book)@, target@, now),
    ensures
        rate_limited(old(book)@, target@, now) ==> (r matches Err(e) && e@ == wait_message(old(book)@, target@, now)
            && final(book)@ == old(book)@),
        !rate_limited(old(book)@, target@, now) ==> (r matches Ok(c) && is_code_text(c@)
            && final(book)@ == old(book)@.insert(target@, fresh_code(c@, now))),
{
    match book.find(target) {
        Some(i) => {
            let used = book.entries[i].used;
            let expires_at = book.entries[i].expires_at;
            let created_at = book.entries[i].created_at;
            if !used && now < expires_at {
                let elapsed = now - created_at;
                if elapsed < 60 {
                    let mut msg: Vec<char> = Vec::new();
                    push_str(&mut msg, "验证码已发送，请 ");
                    push_decimal(&mut msg, (60 - elapsed) as u128);
                    push_str(&mut msg, "s 后重试");
                    return Err(string_of(&msg));
                }
            }
        },
        None => {},
    }
    let code = generate_code();
    let c = VerificationCode {
        code: code.clone(),
        target: String::from_str(target),
        created_at: now,
        expires_at: now + 300,
        used: false,
    };
    book.put(c);
    Ok(code)
}

/// Whether a code may be asked for at `now`: the time leaves room for five
/// minutes of validity, and no unused, unexpired code for the target was
/// made after it.
pub fn can_issue_at(book: &CodeBook, target: &str, now: u64) -> (b: bool)
    ensures
        b == (now <= u64::MAX - 300 && clock_consistent(book@, target@, now)),
{
    if now > u64::MAX - 300 {
        return false;
    }
    match book.find(target) {
        None => true,
        Some(i) => {
            let e = &book.entries[i];
            !(!e.used && now < e.expires_at) || e.created_at <= now
        },
    }
}

/// Makes a code for an e-mail address and keeps it for five minutes; refused
/// while an unused code for the address is younger than a minute. The code is
/// handed back for delivery.
pub fn send_email_code(book: &mut CodeBook, email: &str, now: u64) -> (r: Result<String, String>)
    requires
        now <= u64::MAX - 300,
        clock_consistent(old(book)@, email@, now),
    ensures
        rate_limited(old(book)@, email@, now) ==> (r matches Err(e) && e@ == wait_message(old(book)@, email@, now)
            && final(book)@ == old(book)@),
        !rate_limited(old(book)@, email@, now) ==> (r matches Ok(c) && is_code_text(c@)
            && final(book)@ == old(book)@.insert(email@, fresh_code(c@, now))),
{
    issue_code(book, email, now)
}

/// What the sender of an e-mail code is told: that it was sent, or the code
/// itself when no mail could be sent.
pub open spec fn email_code_text(code: Seq<char>, delivered: bool) -> Seq<char> {
    if delivered {
        "验证码已发送到邮箱"@
    } else {
        "验证码："@ + code + "（SMTP 未配置，开发模式直接显示）"@
    }
}

pub fn email_code_message(code: &str, delivered: bool) -> (m: String)
    ensures
        m@ == email_code_text(code@, delivered),
{
    if delivered {
        String::from_str("验证码已发送到邮箱")
    } else {
        let mut out: Vec<char> = Vec::new();
        push_str(&mut out, "验证码：");
        push_str(&mut out, code);
        push_str(&mut out, "（SMTP 未配置，开发模式直接显示）");
        string_of(&out)
    }
}

/// Makes a code for a phone number (at least 11 bytes long) as
/// `send_email_code` does for an address.
pub fn send_phone_code(book: &mut CodeBook, phone: &str, now: u64) -> (r: Result<String, String>)
    requires
        byte_len(phone@) >= 11 ==> now <= u64::MAX - 300 && clock_consistent(old(book)@, phone@, now),
    ensures
        byte_len(phone@) < 11 ==> (r matches Err(e) && e@ == "手机号格式不正确"@ && final(book)@ == old(book)@),
        byte_len(phone@) >= 11 && rate_limited(old(book)@, phone@, now) ==> (r matches Err(e)
            && e@ == wait_message(old(book)@, phone@, now) && final(book)@ == old(book)@),
        byte_len(phone@) >= 11 && !rate_limited(old(book)@, phone@, now) ==> (r matches Ok(c) && is_code_text(c@)
            && final(book)@ == old(book)@.insert(phone@, fresh_code(c@, now))),
{
    if utf8_len(phone) < 11 {
        return Err(String::from_str("手机号格式不正确"));
    }
    issue_code(book, phone, now)
}

/// What the sender of a phone code is told.
pub open spec fn phone_code_text(code: Seq<char>, delivered: bool) -> Seq<char> {
    if delivered {
        "验证码已发送到手机"@
    } else {
        "验证码："@ + code + "（短信服务未配置，开发模式直接显示）"@
    }
}

pub fn phone_code_message(code: &str, delivered: bool) -> (m: String)
    ensures
        m@ == phone_code_text(code@, delivered),
{
    if delivered {
        String::from_str("验证码已发送到手机")
    } else {
        let mut out: Vec<char> = Vec::new();
        push_str(&mut out, "验证码：");
        push_str(&mut out, code);
        push_str(&mut out, "（短信服务未配置，开发模式直接显示）");
        string_of(&out)
    }
}

/// Why a code is refused, if it is.
pub open spec fn verify_error(book: Map<Seq<char>, CodeState>, target: Seq<char>, code: Seq<char>, now: u64) -> Option<Seq<char>> {
    if !book.contains_key(target) {
        Some("未找到验证码，请先获取验证码"@)
    } else if book[target].used {
        Some("验证码已使用"@)
    } else if now > book[target].expires_at {
        Some("验证码已过期"@)
    } else if book[target].code != code {
        Some("验证码错误"@)
    } else {
        None
    }
}

/// The codes after a check: an expired code is forgotten, an accepted one
/// is marked used.
pub open spec fn book_after_verify(book: Map<Seq<char>, CodeState>, target: Seq<char>, code: Seq<char>, now: u64) -> Map<Seq<char>, CodeState> {
    if !book.contains_key(target) || book[target].used {
        book
    } else if now > book[target].expires_at {
        book.remove(target)
    } else if book[target].code != code {
        book
    } else {
        book.insert(
            target,
            CodeState {
                code: book[target].code,
                created_at: book[target].created_at,
                expires_at: book[target].expires_at,
                used: true,
            },
        )
    }
}

/// Checks a code for a target.
pub fn verify_code(book: &mut CodeBook, target: &str, code: &str, now: u64) -> (r: Result<(), String>)
    ensures
        final(book)@ == book_after_verify(old(book)@, target@, code@, now),
        match verify_error(old(book)@, target@, code@, now) {
            None => r is Ok,
            Some(e) => r matches Err(x) && x@ == e,
        },
{
    match book.find(target) {
        None => Err(String::from_str("未找到验证码，请先获取验证码")),
        Some(i) => {
            if book.entries[i].used {
                return Err(String::from_str("验证码已使用"));
            }
            if now > book.entries[i].expires_at {
                book.forget(target);
                return Err(String::from_str("验证码已过期"));
            }
            let given = String::from_str(code);
            if book.entries[i].code != given {
                return Err(String::from_str("验证码错误"));
            }
            let c = VerificationCode {
                code: book.entries[i].code.clone(),
                target: book.entries[i].target.clone(),
                created_at: book.entries[i].created_at,
                expires_at: book.entries[i].expires_at,
                used: true,
            };
            book.put(c);
            Ok(())
        },
    }
}

/// A code just sent is accepted, with the same text, until it expires.
pub proof fn lemma_fresh_code_accepted(book: Map<Seq<char>, CodeState>, target: Seq<char>, code: Seq<char>, now: u64, later: u64)
    requires
        now <= u64::MAX - 300,
        later <= now + 300,
    ensures
        verify_error(book.insert(target, fresh_code(code, now)), target, code, later) is None,
{
}

/// A code is accepted once: any later check of the target is answered
/// `验证码已使用`.
pub proof fn lemma_code_single_use(
    book: Map<Seq<char>, CodeState>,
    target: Seq<char>,
    code: Seq<char>,
    now: u64,
    other: Seq<char>,
    later: u64,
)
    requires
        verify_error(book, target, code, now) is None,
    ensures
        verify_error(book_after_verify(book, target, code, now), target, other, later) == Some("验证码已使用"@),
{
}

/// An expired code is forgotten by the check that finds it expired.
pub proof fn lemma_expired_code_forgotten(
    book: Map<Seq<char>, CodeState>,
    target: Seq<char>,
    code: Seq<char>,
    now: u64,
    other: Seq<char>,
    later: u64,
)
    requires
        verify_error(book, target, code, now) == Some("验证码已过期"@),
    ensures
        verify_error(book_after_verify(book, target, code, now), target, other, later)
            == Some("未找到验证码，请先获取验证码"@),
{
    lemma_verify_messages_distinct();
}

/// A wrong code changes nothing: the right one is still accepted after it.
pub proof fn lemma_wrong_code_harmless(
    book: Map<Seq<char>, CodeState>,
    target: Seq<char>,
    wrong: Seq<char>,
    now: u64,
)
    requires
        verify_error(book, target, wrong, now) == Some("验证码错误"@),
    ensures
        book_after_verify(book, target, wrong, now) == book,
        verify_error(book, target, book[target].code, now) is None,
{
    lemma_verify_messages_distinct();
}

/// The refusals of `verify_code` are told apart by their texts.
proof fn lemma_verify_messages_distinct()
    ensures
        "未找到验证码，请先获取验证码"@ != "验证码已使用"@,
        "未找到验证码，请先获取验证码"@ != "验证码已过期"@,
        "未找到验证码，请先获取验证码"@ != "验证码错误"@,
        "验证码已使用"@ != "验证码已过期"@,
        "验证码已使用"@ != "验证码错误"@,
        "验证码已过期"@ != "验证码错误"@,
{
    reveal_strlit("未找到验证码，请先获取验证码");
    reveal_strlit("验证码已使用");
    reveal_strlit("验证码已过期");
    reveal_strlit("验证码错误");
    assert("未找到验证码，请先获取验证码"@.len() != "验证码已使用"@.len());
    assert("未找到验证码，请先获取验证码"@.len() != "验证码已过期"@.len());
    assert("未找到验证码，请先获取验证码"@.len() != "验证码错误"@.len());
    assert("验证码已使用"@[4] != "验证码已过期"@[4]);
    assert("验证码已使用"@.len() != "验证码错误"@.len());
    assert("验证码已过期"@.len() != "验证码错误"@.len());
}

/// Within a minute of sending a code, sending another to the same target is
/// refused.
pub proof fn lemma_resend_refused_within_minute(
    book: Map<Seq<char>, CodeState>,
    target: Seq<char>,
    code: Seq<char>,
    now: u64,
    later: u64,
)
    requires
        now <= u64::MAX - 300,
        now <= later < now + 60,
    ensures
        rate_limited(book.insert(target, fresh_code(code, now)), target, later),
{
}


/// A user appended after users none of whom the key finds is the first the
/// key finds.
proof fn lemma_found_last(users: Seq<User>, u: User, key: LoginKey, id: Seq<char>)
    requires
        forall|i: int| 0 <= i < users.len() ==> !user_matches(#[trigger] users[i], key, id),
        user_matches(u, key, id),
    ensures
        first_match(users.push(u), key, id) == Some(users.len() as int),
{
    let s = users.push(u);
    lemma_first_match_from(s, key, id, 0);
    assert(user_matches(s[users.len() as int], key, id));
    match first_match(s, key, id) {
        Some(j) => {
            if j < users.len() {
                assert(s[j] == users[j]);
            }
        },
        None => {},
    }
}

/// After a registration by e-mail, signing in with that address and the same
/// password succeeds and gives the new user.
pub proof fn lemma_register_email_then_login(
    users: Seq<User>,
    u: User,
    n: nat,
    email: Seq<char>,
    password: Seq<char>,
    created_at: Seq<char>,
    r: AuthResult,
)
    requires
        !taken(users, LoginKey::Email, email),
        registered_user(u, n, before_at(email), Some(email), None, password, created_at),
        login_result(r, users.push(u), LoginKey::Email, email, password, "该邮箱未注册"@),
    ensures
        r.success,
        r.message@ == "登录成功"@,
        r.user == Some(u),
{
    lemma_found_last(users, u, LoginKey::Email, email);
}

/// After a registration by phone, signing in with that number and the same
/// password succeeds and gives the new user.
pub proof fn lemma_register_phone_then_login(
    users: Seq<User>,
    u: User,
    n: nat,
    phone: Seq<char>,
    password: Seq<char>,
    created_at: Seq<char>,
    r: AuthResult,
)
    requires
        !taken(users, LoginKey::Phone, phone),
        registered_user(u, n, "user_"@ + phone_suffix(phone), None, Some(phone), password, created_at),
        login_result(r, users.push(u), LoginKey::Phone, phone, password, "该手机号未注册"@),
    ensures
        r.success,
        r.message@ == "登录成功"@,
        r.user == Some(u),
{
    lemma_found_last(users, u, LoginKey::Phone, phone);
}

/// After a registration by user name, signing in with that name and the same
/// password succeeds and gives the new user, as long as no earlier user has
/// the name as phone number (that user is found first).
pub proof fn lemma_register_username_then_login(
    users: Seq<User>,
    u: User,
    n: nat,
    username: Seq<char>,
    password: Seq<char>,
    created_at: Seq<char>,
    r: AuthResult,
)
    requires
        !username_taken(users, username),
        forall|i: int| 0 <= i < users.len() ==> !opt_is((#[trigger] users[i]).phone, username),
        registered_user(u, n, username, None, None, password, created_at),
        login_result(r, users.push(u), LoginKey::UsernameOrPhone, username, password, "用户不存在"@),
    ensures
        r.success,
        r.message@ == "登录成功"@,
        r.user == Some(u),
{
    assert forall|i: int| 0 <= i < users.len() implies !user_matches(#[trigger] users[i], LoginKey::UsernameOrPhone, username) by {
        assert(users[i].username@ != username);
    }
    lemma_found_last(users, u, LoginKey::UsernameOrPhone, username);
}

/// Once an address is registered, it is taken: registering it again is
/// refused.
pub proof fn lemma_email_registered_once(users: Seq<User>, u: User, email: Seq<char>)
    requires
        opt_is(u.email, email),
    ensures
        taken(users.push(u), LoginKey::Email, email),
{
    let s = users.push(u);
    assert(user_matches(s[users.len() as int], LoginKey::Email, email));
}


/// A sign-in succeeds only with the password whose hash the user found
/// holds, and then gives that user.
pub proof fn lemma_login_needs_password(
    r: AuthResult,
    users: Seq<User>,
    key: LoginKey,
    id: Seq<char>,
    password: Seq<char>,
    not_found: Seq<char>,
)
    requires
        login_result(r, users, key, id, password, not_found),
        r.success,
    ensures
        first_match(users, key, id) matches Some(i) && 0 <= i < users.len()
            && users[i].password_hash@ == password_hash_text(password)
            && r.user == Some(users[i]),
{
    lemma_first_match_from(users, key, id, 0);
}

} // verus!
