use email_reply_parser::{EmailMessage, EmailReplyParser};

#[test]
fn test_simple_body() {
    let text = "folks\n\nthis is a quote\n\nOn Jan 1, 2020, Bob wrote:\n\n> quoted text\n\n--\nriak-users mailing list";
    let message = EmailMessage::new(text).read();

    // the blank line between the quoted block and the signature boundary
    // forms an empty fragment of its own
    assert_eq!(4, message.fragments.len());
    assert_eq!(
        vec![false, true, false, false],
        message.fragments.iter().map(|f| f.quoted).collect::<Vec<_>>()
    );
    assert_eq!(
        vec![false, false, false, true],
        message.fragments.iter().map(|f| f.signature).collect::<Vec<_>>()
    );
    assert_eq!(
        vec![false, true, true, true],
        message.fragments.iter().map(|f| f.hidden).collect::<Vec<_>>()
    );
    assert!(message.fragments[0].content().contains("folks"));
    assert!(message.fragments[3].content().contains("riak-users"));
}

#[test]
fn test_verify_reads_signature_correct() {
    let text = "Body text\n\n--\nKind regards\nBob";
    let message = EmailMessage::new(text).read();

    assert_eq!(2, message.fragments.len());
    assert_eq!(
        vec![false, false],
        message.fragments.iter().map(|f| f.quoted).collect::<Vec<_>>()
    );
    assert_eq!(
        vec![false, true],
        message.fragments.iter().map(|f| f.signature).collect::<Vec<_>>()
    );
    assert_eq!(
        vec![false, true],
        message.fragments.iter().map(|f| f.hidden).collect::<Vec<_>>()
    );
    assert!(message.fragments[1].content().contains("--"));
}

#[test]
fn test_sent_from_iphone() {
    let text = "Reply text\n\nSent from my iPhone";
    let reply = EmailReplyParser::parse_reply(text);
    assert!(!reply.contains("Sent from my iPhone"));
    assert_eq!("Reply text", reply);
}

#[test]
fn test_parse_out_just_top_for_outlook_with_reply_directly_above_line() {
    let text = "Outlook with a reply directly above line\n-------------\nFrom: Bob <bob@example.com>\nSent: Monday\nTo: Alice\nSubject: Re: hello\nolder text";
    let reply = EmailReplyParser::parse_reply(text);
    assert_eq!("Outlook with a reply directly above line", reply);
}

#[test]
fn test_outlook_underscore_boundary() {
    let text = "Reply above an underscore boundary\n__________\nFrom: Bob <bob@example.com>\nolder text";
    let reply = EmailReplyParser::parse_reply(text);
    assert_eq!("Reply above an underscore boundary", reply);
}

#[test]
fn test_multiline_reply_headers() {
    let text = "I get proper rendering here.\n\nOn 9 Jan 2014,\nat 2:47 pm,\nMike wrote:\n\n> Some quoted text";
    let message = EmailMessage::new(text).read();

    assert!(message.fragments[0].content().contains("I get"));
    assert!(message.fragments[1].content().contains("On"));
    let reply = message.reply();
    assert!(reply.contains("I get proper rendering here."));
    assert!(!reply.contains("Some quoted text"));
}

#[test]
fn test_partial_quote_header() {
    let text = "On your remote host you can run:\n\ntelnet 127.0.0.1 52698\n\nThis should connect to TextMate\n\nOn 9 Jan 2014, at 2:47 pm, George wrote:\n\n> quoted text";
    let message = EmailMessage::new(text).read();
    let reply = message.reply();

    assert!(reply.contains("On your remote host you can run:"));
    assert!(reply.contains("telnet 127.0.0.1 52698"));
    assert!(reply.contains("This should connect to TextMate"));
    assert!(!reply.contains("quoted text"));
}

#[test]
fn test_deals_with_windows_line_endings() {
    let text = "Hi :+1:\r\n\r\nOn Jan 1, Bob wrote:\r\n\r\n> quoted text";
    let message = EmailMessage::new(text).read();

    assert!(message.fragments[0].content().contains(":+1:"));
    assert!(message.fragments[1].content().contains("On"));
    assert!(!message.text.contains('\r'));
}

#[test]
fn test_email_one_is_not_on() {
    let text = "New content here\n\nOn Oct 1, 2012, at 11:55 PM, Dave Tapley wrote:\n\n> quoted body";
    let reply = EmailReplyParser::parse_reply(text);
    assert!(!reply.contains("On Oct 1, 2012, at 11:55 PM, Dave Tapley wrote:"));
    assert_eq!("New content here", reply);
}

#[test]
fn test_trailing_wrote_stripped() {
    let text = "Lorem ipsum\nOn Jan 1, Bob wrote:";
    let message = EmailMessage::new(text).read();

    assert_eq!(2, message.fragments.len());
    assert!(!message.fragments[1].content().ends_with("wrote:"));
    assert_eq!("On Jan 1, Bob", message.fragments[1].content());
}

#[test]
fn test_empty_input() {
    let message = EmailReplyParser::read("");
    assert!(message.fragments.len() <= 1);
    for f in &message.fragments {
        assert_eq!("", f.content());
    }
    assert_eq!("", EmailReplyParser::parse_reply(""));
}

#[test]
fn test_parse_reply_idempotent() {
    let text = "folks\n\nOn Jan 1, 2020, Bob wrote:\n\n> quoted text\n\n--\nsig block";
    let first = EmailReplyParser::parse_reply(text);
    let second = EmailReplyParser::parse_reply(text);
    assert_eq!(first, second);
}

#[test]
fn test_header_cascade_hides_earlier_fragments() {
    let text = "Intro\n----- Forwarded message -----\nFrom: Bob <bob@example.com>\nSubject: Hi\n\nBody of the forwarded mail";
    let message = EmailMessage::new(text).read();

    let reply = message.reply();
    assert_eq!("Intro", reply);
    // every fragment after the header block is hidden by the cascade
    let mut seen_header = false;
    for f in &message.fragments {
        if seen_header {
            assert!(f.hidden);
        }
        if f.headers {
            seen_header = true;
        }
    }
    assert!(seen_header);
    assert!(message.fragments[message.fragments.len() - 1].hidden);
}

#[test]
fn test_reads_inline_replies() {
    let text = "Hi\n\nOn Jan 1, Bob wrote:\n\n> a question\n\nAnswer below";
    let message = EmailMessage::new(text).read();
    let reply = message.reply();
    assert_eq!("Hi\nAnswer below", reply);
}

#[test]
fn test_quoted_fragment_not_in_reply() {
    let text = "Top reply\n\nOn Jan 1, Bob wrote:\n\n> old text line one\n> old text line two";
    let message = EmailMessage::new(text).read();
    let reply = message.reply();
    assert_eq!("Top reply", reply);
    let quoted: Vec<bool> = message.fragments.iter().map(|f| f.quoted).collect();
    assert!(quoted.contains(&true));
}

#[test]
fn test_multiline_quote_header_collapsed() {
    // the "On ... wrote:" span crosses lines; both halves end up hidden
    let text = "Awesome contribution\n\nOn Jan 1, 2020, at 3:07 PM, the Loader\nwrote:\n\n> inner text";
    let message = EmailMessage::new(text).read();
    assert!(message.fragments[0].content().contains("Awesome"));
    assert!(message.fragments[1].content().contains("Loader"));
    let reply = message.reply();
    assert!(!reply.contains("Loader"));
    assert!(!reply.contains("inner text"));
}

#[test]
fn test_header_field_line_is_header_block() {
    let text = "And another reply!\n\nFrom: Bob <bob@example.com>\nTo: Alice <alice@example.com>\nSubject: earlier\n\nearlier body";
    let message = EmailMessage::new(text).read();
    let reply = message.reply();
    assert_eq!("And another reply!", reply.trim());
}

#[test]
fn test_starred_header_field() {
    let text = "Reply above unusual headers\n\n*From:* Bob <bob@example.com>\n*Sent:* Monday\n\nolder body";
    let reply = EmailReplyParser::parse_reply(text);
    assert_eq!("Reply above unusual headers", reply);
}

#[test]
fn test_boundary_line_already_separated() {
    // with the blank line already present, no extra line is inserted
    let with_blank = "Reply\n\n_______________\nFrom: Bob <bob@example.com>";
    let without_blank = "Reply\n_______________\nFrom: Bob <bob@example.com>";
    assert_eq!(
        EmailReplyParser::parse_reply(with_blank),
        EmailReplyParser::parse_reply(without_blank)
    );
}

#[test]
fn test_message_new_normalizes_text() {
    let message = EmailMessage::new("a\r\nb\r\nc");
    assert_eq!("a\nb\nc", message.text);
    assert!(message.fragments.is_empty());
    assert!(!message.found_visible);
}

#[test]
fn test_signature_with_dash_word() {
    let text = "Email body here\n\n-Abhishek Kona\n\nmore below";
    let message = EmailMessage::new(text).read();
    // "-Abhishek" matches the dash-word signature pattern once a blank
    // line above it closes the fragment
    let sigs: Vec<bool> = message.fragments.iter().map(|f| f.signature).collect();
    assert!(sigs.contains(&true));
}

#[test]
fn test_complex_body_with_one_fragment() {
    let text = "Awesome! I haven't had another problem with it.\n\nThanks for checking back in.\n\nCheers!";
    let message = EmailMessage::new(text).read();
    assert_eq!(1, message.fragments.len());
    assert!(!message.fragments[0].hidden);
}

#[test]
fn test_pathological_emails() {
    // many near-matching "On ..." lines must not blow up the span search
    let mut text = String::new();
    for _ in 0..2000 {
        text.push_str("On Mon, Dec 5 at 10 AM someone\n");
    }
    text.push_str("wrote:\n> hi\n");
    let start_time = std::time::Instant::now();
    let reply = EmailReplyParser::parse_reply(&text);
    assert!(start_time.elapsed().as_secs_f32() < 10.0, "parsing took too long");
    assert!(reply.contains("someone"));
    assert!(!reply.contains("wrote:"));
}

#[test]
fn test_fragment_content_is_trimmed() {
    let text = "   padded reply   ";
    let message = EmailReplyParser::read(text);
    assert_eq!(1, message.fragments.len());
    assert_eq!("padded reply", message.fragments[0].content());
}
