use outlook_mail_pool_api::importer::{parse_import_text, ImportedAccount};

#[test]
fn parses_csv_and_colon_outlook_accounts_with_defaults() {
    let parsed = parse_import_text(
        "alpha@outlook.com,alpha-pass\n\
         beta@hotmail.com:beta-pass\n\
         gamma@outlook.com,gamma-pass,imap-mail.outlook.com,993\n",
    );

    assert_eq!(parsed.errors, Vec::new());
    assert_eq!(parsed.accounts.len(), 3);
    assert_eq!(parsed.accounts[0].email, "alpha@outlook.com");
    assert_eq!(parsed.accounts[0].password, "alpha-pass");
    assert_eq!(parsed.accounts[0].imap_host, "outlook.office365.com");
    assert_eq!(parsed.accounts[0].imap_port, 993);
    assert_eq!(parsed.accounts[1].email, "beta@hotmail.com");
    assert_eq!(parsed.accounts[1].password, "beta-pass");
    assert_eq!(parsed.accounts[2].imap_host, "imap-mail.outlook.com");
}

#[test]
fn reports_invalid_lines_without_dropping_valid_accounts() {
    let parsed = parse_import_text(
        "not-an-email,password\n\
         ok@outlook.com,secret\n\
         missing-password@outlook.com\n",
    );

    assert_eq!(parsed.accounts.len(), 1);
    assert_eq!(parsed.accounts[0].email, "ok@outlook.com");
    assert_eq!(parsed.errors.len(), 2);
    assert_eq!(parsed.errors[0].line_number, 1);
    assert!(parsed.errors[0].reason.contains("email"));
    assert_eq!(parsed.errors[1].line_number, 3);
    assert!(parsed.errors[1].reason.contains("password"));
}

#[test]
fn lowercases_emails_trims_fields_and_strips_quotes() {
    let parsed = parse_import_text("  \"User@Outlook.COM\" , \" pw \" ,  host.example  , 143 \r\n");
    assert_eq!(parsed.errors, Vec::new());
    assert_eq!(parsed.accounts.len(), 1);
    assert_eq!(parsed.accounts[0].email, "user@outlook.com");
    assert_eq!(parsed.accounts[0].password, "pw");
    assert_eq!(parsed.accounts[0].imap_host, "host.example");
    assert_eq!(parsed.accounts[0].imap_port, 143);
}

#[test]
fn skips_blank_lines_but_keeps_line_numbers() {
    let parsed = parse_import_text("\n   \n\t\nbad-line\n");
    assert!(parsed.accounts.is_empty());
    assert_eq!(parsed.errors.len(), 1);
    assert_eq!(parsed.errors[0].line_number, 4);
    assert_eq!(parsed.errors[0].line, "bad-line");
    assert_eq!(parsed.errors[0].reason, "password is required");
}

#[test]
fn empty_input_yields_nothing() {
    let parsed = parse_import_text("");
    assert!(parsed.accounts.is_empty());
    assert!(parsed.errors.is_empty());
}

#[test]
fn port_errors_come_before_address_errors() {
    let parsed = parse_import_text("nobody,pw,host,99999\nx@y.com,pw,host,+25\nx@y.com,pw,host,-1\n");
    assert_eq!(parsed.errors.len(), 2);
    assert_eq!(parsed.errors[0].reason, "imap_port must be a number");
    assert_eq!(parsed.errors[1].line_number, 3);
    assert_eq!(parsed.errors[1].reason, "imap_port must be a number");
    assert_eq!(parsed.accounts.len(), 1);
    assert_eq!(parsed.accounts[0].imap_port, 25);
}

#[test]
fn each_error_reason_has_an_input() {
    let parsed = parse_import_text("a@b.com,pw,  ,993\na@b.com,  \nuser@nodot,pw\n@x.com,pw\n");
    let reasons: Vec<&str> = parsed.errors.iter().map(|e| e.reason.as_str()).collect();
    assert_eq!(
        reasons,
        vec!["imap_host is required", "password is required", "email is invalid", "email is invalid"]
    );
}

#[test]
fn colon_is_used_only_without_commas() {
    let parsed = parse_import_text("a@b.com:pw:extra,second\n");
    assert_eq!(parsed.accounts.len(), 1);
    assert_eq!(parsed.accounts[0].email, "a@b.com:pw:extra");
    assert_eq!(parsed.accounts[0].password, "second");
}

#[test]
fn every_non_blank_line_gives_one_account_or_one_error() {
    let text = "a@b.com,p\n\n  \nbad\nc@d.com:q\n x@y.com,p,h,notaport\n";
    let parsed = parse_import_text(text);
    let non_blank = text.lines().filter(|l| !l.trim().is_empty()).count();
    assert_eq!(parsed.accounts.len() + parsed.errors.len(), non_blank);
    let numbers: Vec<usize> = parsed.errors.iter().map(|e| e.line_number).collect();
    assert_eq!(numbers, vec![4, 6]);
    for account in &parsed.accounts {
        assert!(account.email.contains('@'));
        assert!(!account.password.is_empty());
        assert!(!account.imap_host.is_empty());
    }
}

#[test]
fn importing_two_texts_in_turn_concatenates_with_shifted_line_numbers() {
    let a = "one@outlook.com,one-pass\nbad-line\n";
    let b = "\ntwo@outlook.com:two-pass\nno-at,pw\n";
    let first = parse_import_text(a);
    let second = parse_import_text(b);
    let whole = parse_import_text(&format!("{a}{b}"));

    let mut accounts = first.accounts.clone();
    accounts.extend(second.accounts.clone());
    assert_eq!(whole.accounts, accounts);

    let shift = a.lines().count();
    assert_eq!(shift, 2);
    let mut errors = first.errors.clone();
    for e in &second.errors {
        let mut moved = e.clone();
        moved.line_number += shift;
        errors.push(moved);
    }
    assert_eq!(whole.errors, errors);
    assert_eq!(whole.errors[0].line_number, 2);
    assert_eq!(whole.errors[1].line_number, 5);
}

#[test]
fn a_formatted_account_line_imports_back_unchanged() {
    let account = ImportedAccount {
        email: "someone@outlook.com".to_string(),
        password: "p@ss: word".to_string(),
        imap_host: "imap-mail.outlook.com".to_string(),
        imap_port: 143,
    };
    let line = format!(
        "{},{},{},{}",
        account.email, account.password, account.imap_host, account.imap_port
    );
    let parsed = parse_import_text(&line);
    assert_eq!(parsed.accounts, vec![account]);
    assert_eq!(parsed.errors, Vec::new());
}

#[test]
fn unicode_white_space_is_trimmed_from_fields() {
    let parsed = parse_import_text("\u{3000}Wide@Outlook.com\u{a0},\u{2003}pw\u{85}\n");
    assert_eq!(parsed.errors, Vec::new());
    assert_eq!(parsed.accounts[0].email, "wide@outlook.com");
    assert_eq!(parsed.accounts[0].password, "pw");
}
