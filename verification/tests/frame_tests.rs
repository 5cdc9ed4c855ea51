use diy_redis::cursor::ByteCursor;
use diy_redis::frame::{parse, read_line, Error, Frame};

#[test]
fn read_line_crlf_order_invalid() {
    // Arrange
    let buff = b"unimportant\n\r";
    let mut buff = ByteCursor::new(buff.as_slice());

    // Act
    let line = read_line(&mut buff);

    // Assert
    assert!(line.is_err());
    assert!(matches!(line, Err(Error::UnexpectedError(_))));
}

#[test]
fn read_line_incomplete_no_crlf_at_all_incomplete() {
    // Arrange
    let buff = b"unimportant";
    let mut buff = ByteCursor::new(buff.as_slice());

    // Act
    let line = read_line(&mut buff);

    // Assert
    assert!(line.is_err());
    assert!(matches!(line, Err(Error::Incomplete)));
}

#[test]
fn read_line_missing_lf_incomplete() {
    // Arrange
    let buff = b"unimportant\r";
    let mut buff = ByteCursor::new(buff.as_slice());

    // Act
    let line = read_line(&mut buff);

    // Assert
    assert!(line.is_err());
    assert!(matches!(line, Err(Error::Incomplete)));
}

#[test]
fn read_line_content_contains_cr_invalid() {
    // Arrange
    let buff = b"unimportant\runimportant\r\n";
    let mut buff = ByteCursor::new(buff.as_slice());

    // Act
    let line = read_line(&mut buff);

    // Assert
    assert!(line.is_err());
    assert!(matches!(line, Err(Error::UnexpectedError(_))));
}

#[test]
fn read_line_content_contains_lf_invalid() {
    // Arrange
    let buff = b"unimportant\nunimportant\r\n";
    let mut buff = ByteCursor::new(buff.as_slice());

    // Act
    let line = read_line(&mut buff);

    // Assert
    assert!(line.is_err());
    assert!(matches!(line, Err(Error::UnexpectedError(_))));
}

#[test]
fn parse_empty_buf_incomplete() {
    // Arrange
    let buff = b"";
    let mut buff = ByteCursor::new(buff.as_slice());

    // Act
    let frame = parse(&mut buff);

    // Assert
    assert!(frame.is_err());
    assert!(matches!(frame, Err(Error::Incomplete)));
}

#[test]
fn parse_multiple_frames() {
    // Arrange
    let buff = b"+simple\r\n-error\r\n:123\r\n$11\r\nbulk string\r\n+simple\r\n";
    let mut buff = ByteCursor::new(buff.as_slice());

    // Act
    let string_frame = parse(&mut buff);
    let error_frame = parse(&mut buff);
    let integer_frame = parse(&mut buff);
    let bulk_string_frame = parse(&mut buff);
    let string_repeat_frame = parse(&mut buff);
    // no more bytes to parse
    let should_be_error = parse(&mut buff);

    assert!(string_frame.is_ok());
    if let Ok(Frame::Simple(content)) = string_frame {
        assert_eq!(content, "simple");
    } else {
        panic!("Expected Frame::Simple variant for first frame");
    }

    assert!(error_frame.is_ok());
    if let Ok(Frame::Error(content)) = error_frame {
        assert_eq!(content, "error");
    } else {
        panic!("Expected Frame::Error variant for second frame");
    }

    assert!(integer_frame.is_ok());
    if let Ok(Frame::Integer(num)) = integer_frame {
        assert_eq!(num, 123);
    } else {
        panic!("Expected Frame::Integer variant for third frame");
    }

    assert!(bulk_string_frame.is_ok());
    if let Ok(Frame::Bulk(content)) = bulk_string_frame {
        assert_eq!(content.as_slice(), b"bulk string");
    } else {
        panic!("Expected Frame::Bulk variant for third frame");
    }

    assert!(string_repeat_frame.is_ok());
    if let Ok(Frame::Simple(content)) = string_repeat_frame {
        assert_eq!(content, "simple");
    } else {
        panic!("Expected Frame::Simple variant for first frame");
    }

    assert!(should_be_error.is_err());
    assert!(matches!(should_be_error, Err(Error::Incomplete)));
}

#[test]
fn parse_unsupported_frame_type_invalid() {
    // Arrange
    let buff = b"!content\r\n";
    let mut buff = ByteCursor::new(buff.as_slice());

    // Act
    let frame = parse(&mut buff);

    // Assert
    assert!(frame.is_err());
    assert!(matches!(frame, Err(Error::UnsupportedFrameType)));
}

#[test]
fn parse_simple_string_frame_valid() {
    // Arrange
    let buff = b"+Hello World\r\n";
    let mut buff = ByteCursor::new(buff.as_slice());

    // Act
    let frame = parse(&mut buff);

    // Assert
    assert!(frame.is_ok());
    if let Ok(Frame::Simple(content)) = frame {
        assert_eq!(content, "Hello World");
    } else {
        panic!("Expected Frame::Simple variant");
    }
}

#[test]
fn parse_simple_string_empty_valid() {
    // Arrange
    let buff = b"+\r\n";
    let mut buff = ByteCursor::new(buff.as_slice());

    // Act
    let frame = parse(&mut buff);

    // Assert
    assert!(frame.is_ok());
    if let Ok(Frame::Simple(content)) = frame {
        assert_eq!(content, "");
    } else {
        panic!("Expected Frame::Simple variant");
    }
}

#[test]
fn parse_simple_error_frame_valid() {
    // Arrange
    let buff = b"-ERR unknown command 'asdf'\r\n";
    let mut buff = ByteCursor::new(buff.as_slice());

    // Act
    let frame = parse(&mut buff);

    // Assert
    assert!(frame.is_ok());
    if let Ok(Frame::Error(content)) = frame {
        assert_eq!(content, "ERR unknown command 'asdf'");
    } else {
        panic!("Expected Frame::Error variant");
    }
}

#[test]
fn parse_integer_frame_valid() {
    // Arrange
    let buff = b":123\r\n";
    let mut buff = ByteCursor::new(buff.as_slice());

    // Act
    let frame = parse(&mut buff);

    // Assert
    assert!(frame.is_ok());
    if let Ok(Frame::Integer(content)) = frame {
        assert_eq!(content, 123);
    } else {
        panic!("Expected Frame::Error variant");
    }
}

#[test]
fn parse_integer_frame_with_leading_zeros() {
    // Arrange
    let buff = b":000123\r\n";
    let mut buff = ByteCursor::new(buff.as_slice());

    // Act
    let frame = parse(&mut buff);

    // Assert
    assert!(frame.is_ok());
    if let Ok(Frame::Integer(content)) = frame {
        assert_eq!(content, 123);
    } else {
        panic!("Expected Frame::Integer variant");
    }
}

#[test]
fn parse_integer_frame_zero_valid() {
    // Arrange
    let buff = b":0\r\n";
    let mut buff = ByteCursor::new(buff.as_slice());

    // Act
    let frame = parse(&mut buff);

    // Assert
    assert!(frame.is_ok());
    if let Ok(Frame::Integer(content)) = frame {
        assert_eq!(content, 0);
    } else {
        panic!("Expected Frame::Error variant");
    }
}

#[test]
fn parse_integer_frame_negative_zero_valid() {
    // Arrange
    let buff = b":-0\r\n";
    let mut buff = ByteCursor::new(buff.as_slice());

    // Act
    let frame = parse(&mut buff);

    // Assert
    assert!(frame.is_ok());
    if let Ok(Frame::Integer(content)) = frame {
        assert_eq!(content, 0);
    } else {
        panic!("Expected Frame::Error variant");
    }
}

#[test]
fn parse_integer_frame_with_positive_signal_valid() {
    // Arrange
    let buff = b":+123\r\n";
    let mut buff = ByteCursor::new(buff.as_slice());

    // Act
    let frame = parse(&mut buff);

    // Assert
    assert!(frame.is_ok());
    if let Ok(Frame::Integer(content)) = frame {
        assert_eq!(content, 123);
    } else {
        panic!("Expected Frame::Integer variant");
    }
}

#[test]
fn parse_integer_frame_negative_valid() {
    // Arrange
    let buff = b":-123\r\n";
    let mut buff = ByteCursor::new(buff.as_slice());

    // Act
    let frame = parse(&mut buff);

    // Assert
    assert!(frame.is_ok());
    if let Ok(Frame::Integer(content)) = frame {
        assert_eq!(content, -123);
    } else {
        panic!("Expected Frame::Integer variant");
    }
}

#[test]
fn parse_integer_frame_max_valid() {
    // Arrange
    let buff = b":9223372036854775807\r\n";
    let mut buff = ByteCursor::new(buff.as_slice());

    // Act
    let frame = parse(&mut buff);

    // Assert
    assert!(frame.is_ok());
    if let Ok(Frame::Integer(content)) = frame {
        assert_eq!(content, i64::MAX);
    } else {
        panic!("Expected Frame::Integer variant");
    }
}

#[test]
fn parse_integer_frame_min_valid() {
    // Arrange
    let buff = b":-9223372036854775808\r\n";
    let mut buff = ByteCursor::new(buff.as_slice());

    // Act
    let frame = parse(&mut buff);

    // Assert
    assert!(frame.is_ok());
    if let Ok(Frame::Integer(content)) = frame {
        assert_eq!(content, i64::MIN);
    } else {
        panic!("Expected Frame::Integer variant");
    }
}

#[test]
fn parse_integer_frame_invalid() {
    // Arrange
    let buff = b":12a3\r\n";
    let mut buff = ByteCursor::new(buff.as_slice());

    // Act
    let frame = parse(&mut buff);

    // Assert
    assert!(frame.is_err());
    assert!(matches!(frame, Err(Error::UnexpectedError(_))));
}

#[test]
fn parse_integer_frame_large_invalid() {
    // Arrange
    // i64::MAX + 1
    let buff = b":9223372036854775808\r\n";
    let mut buff = ByteCursor::new(buff.as_slice());

    // Act
    let frame = parse(&mut buff);

    // Assert
    assert!(frame.is_err());
    assert!(matches!(frame, Err(Error::UnexpectedError(_))));
}

#[test]
fn parse_integer_frame_empty_invalid() {
    // Arrange
    let buff = b":\r\n";
    let mut buff = ByteCursor::new(buff.as_slice());

    // Act
    let frame = parse(&mut buff);

    // Assert
    assert!(frame.is_err());
    assert!(matches!(frame, Err(Error::UnexpectedError(_))));
}

#[test]
fn parse_bulk_string_starts_with_crlf_valid() {
    // Arrange
    let buff = b"$7\r\nhel\r\nlo\r\n";
    let mut buff = ByteCursor::new(buff.as_slice());

    // Act
    let frame = parse(&mut buff);

    // Assert
    assert!(frame.is_ok());
    if let Ok(Frame::Bulk(content)) = frame {
        assert_eq!(content.as_slice(), b"hel\r\nlo");
    } else {
        panic!("Expected Frame::Bulk variant");
    }
}

#[test]
fn parse_bulk_string_zero_length_valid() {
    // Arrange
    let buff = b"$0\r\n\r\n";
    let mut buff = ByteCursor::new(buff.as_slice());

    // Act
    let frame = parse(&mut buff);

    // Assert
    assert!(frame.is_ok());
    if let Ok(Frame::Bulk(content)) = frame {
        assert_eq!(content.as_slice(), b"");
    } else {
        panic!("Expected Frame::Bulk variant");
    }
}

#[test]
fn parse_bulk_string_null_valid() {
    // Arrange
    let buff = b"$-1\r\n";
    let mut buff = ByteCursor::new(buff.as_slice());

    // Act
    let frame = parse(&mut buff);

    // Assert
    assert!(frame.is_ok());
    assert!(matches!(frame, Ok(Frame::Null)));
}

#[test]
fn parse_large_bulk_string_valid() {
    // Arrange
    let len: usize = 10 * 1024 * 1024; // 10MB
    let payload = vec![b'a'; len];
    let mut frame = Vec::new();
    frame.extend_from_slice(format!("${}\r\n", len).as_bytes());
    frame.extend_from_slice(&payload);
    frame.extend_from_slice(b"\r\n");

    let mut buff = ByteCursor::new(frame.as_slice());

    // Act
    let result = parse(&mut buff);

    // Assert
    assert!(result.is_ok());
    if let Ok(Frame::Bulk(content)) = result {
        assert_eq!(content.len(), len);
        assert!(content.iter().all(|&b| b == b'a'));
    } else {
        panic!("Expected Frame::Bulk variant");
    }
    assert_eq!(buff.position(), frame.len());
}

#[test]
fn parse_bulk_string_starts_with_crlf_invalid() {
    // Arrange
    let buff = b"$\r\n5\r\nhello\r\n";
    let mut buff = ByteCursor::new(buff.as_slice());

    // Act
    let frame = parse(&mut buff);

    // Assert
    assert!(frame.is_err());
    assert!(matches!(frame, Err(Error::UnexpectedError(_))));
}

#[test]
fn parse_bulk_string_missing_crlf_after_length_invalid() {
    // Arrange
    let buff = b"$5hello\r\n";
    let mut buff = ByteCursor::new(buff.as_slice());

    // Act
    let frame = parse(&mut buff);

    // Assert
    assert!(frame.is_err());
    assert!(matches!(frame, Err(Error::UnexpectedError(_))));
}

#[test]
fn parse_bulk_string_missing_final_crlf_incomplete() {
    // Arrange
    let buff = b"$5\r\nhello";
    let mut buff = ByteCursor::new(buff.as_slice());

    // Act
    let frame = parse(&mut buff);

    // Assert
    assert!(frame.is_err());
    assert!(matches!(frame, Err(Error::Incomplete)));
}

// Still not sure if this test make sense, and what error to return in this scenario
#[test]
fn parse_bulk_string_length_mismatch_too_short_incomplete() {
    // Arrange
    let buff = b"$6\r\nhello\r\n";
    let mut buff = ByteCursor::new(buff.as_slice());

    // Act
    let frame = parse(&mut buff);

    // Assert
    assert!(frame.is_err());
    assert!(matches!(frame, Err(Error::Incomplete)));
}

#[test]
fn parse_bulk_string_length_mismatch_too_long_invalid() {
    // Arrange
    let buff = b"$5\r\nhello!\r\n";
    let mut buff = ByteCursor::new(buff.as_slice());

    // Act
    let frame = parse(&mut buff);

    // Assert
    assert!(frame.is_err());
    assert!(matches!(frame, Err(Error::UnexpectedError(_))));
}

#[test]
fn parse_bulk_string_length_less_than_negative_one_invalid() {
    // Arrange
    let buff = b"$-2\r\n";
    let mut buff = ByteCursor::new(buff.as_slice());

    // Act
    let frame = parse(&mut buff);

    // Assert
    assert!(frame.is_err());
    assert!(matches!(frame, Err(Error::UnexpectedError(_))));
}
