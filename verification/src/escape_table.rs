//! The three-character escapes of all 256 bytes.

use vstd::prelude::*;
use crate::percent::{as_text, escape};

verus! {

/// The escape of `byte`: a percent sign and the two upper-case hexadecimal digits of its
/// value.
pub fn percent_encode_byte(byte: u8) -> (r: &'static str)
    ensures
        r@ == as_text(escape(byte)),
{
    let r = match byte {
        0 => {
            proof {
                reveal_strlit("%00");
            }
            "%00"
        },
        1 => {
            proof {
                reveal_strlit("%01");
            }
            "%01"
        },
        2 => {
            proof {
                reveal_strlit("%02");
            }
            "%02"
        },
        3 => {
            proof {
                reveal_strlit("%03");
            }
            "%03"
        },
        4 => {
            proof {
                reveal_strlit("%04");
            }
            "%04"
        },
        5 => {
            proof {
                reveal_strlit("%05");
            }
            "%05"
        },
        6 => {
            proof {
                reveal_strlit("%06");
            }
            "%06"
        },
        7 => {
            proof {
                reveal_strlit("%07");
            }
            "%07"
        },
        8 => {
            proof {
                reveal_strlit("%08");
            }
            "%08"
        },
        9 => {
            proof {
                reveal_strlit("%09");
            }
            "%09"
        },
        10 => {
            proof {
                reveal_strlit("%0A");
            }
            "%0A"
        },
        11 => {
            proof {
                reveal_strlit("%0B");
            }
            "%0B"
        },
        12 => {
            proof {
                reveal_strlit("%0C");
            }
            "%0C"
        },
        13 => {
            proof {
                reveal_strlit("%0D");
            }
            "%0D"
        },
        14 => {
            proof {
                reveal_strlit("%0E");
            }
            "%0E"
        },
        15 => {
            proof {
                reveal_strlit("%0F");
            }
            "%0F"
        },
        16 => {
            proof {
                reveal_strlit("%10");
            }
            "%10"
        },
        17 => {
            proof {
                reveal_strlit("%11");
            }
            "%11"
        },
        18 => {
            proof {
                reveal_strlit("%12");
            }
            "%12"
        },
        19 => {
            proof {
                reveal_strlit("%13");
            }
            "%13"
        },
        20 => {
            proof {
                reveal_strlit("%14");
            }
            "%14"
        },
        21 => {
            proof {
                reveal_strlit("%15");
            }
            "%15"
        },
        22 => {
            proof {
                reveal_strlit("%16");
            }
            "%16"
        },
        23 => {
            proof {
                reveal_strlit("%17");
            }
            "%17"
        },
        24 => {
            proof {
                reveal_strlit("%18");
            }
            "%18"
        },
        25 => {
            proof {
                reveal_strlit("%19");
            }
            "%19"
        },
        26 => {
            proof {
                reveal_strlit("%1A");
            }
            "%1A"
        },
        27 => {
            proof {
                reveal_strlit("%1B");
            }
            "%1B"
        },
        28 => {
            proof {
                reveal_strlit("%1C");
            }
            "%1C"
        },
        29 => {
            proof {
                reveal_strlit("%1D");
            }
            "%1D"
        },
        30 => {
            proof {
                reveal_strlit("%1E");
            }
            "%1E"
        },
        31 => {
            proof {
                reveal_strlit("%1F");
            }
            "%1F"
        },
        32 => {
            proof {
                reveal_strlit("%20");
            }
            "%20"
        },
        33 => {
            proof {
                reveal_strlit("%21");
            }
            "%21"
        },
        34 => {
            proof {
                reveal_strlit("%22");
            }
            "%22"
        },
        35 => {
            proof {
                reveal_strlit("%23");
            }
            "%23"
        },
        36 => {
            proof {
                reveal_strlit("%24");
            }
            "%24"
        },
        37 => {
            proof {
                reveal_strlit("%25");
            }
            "%25"
        },
        38 => {
            proof {
                reveal_strlit("%26");
            }
            "%26"
        },
        39 => {
            proof {
                reveal_strlit("%27");
            }
            "%27"
        },
        40 => {
            proof {
                reveal_strlit("%28");
            }
            "%28"
        },
        41 => {
            proof {
                reveal_strlit("%29");
            }
            "%29"
        },
        42 => {
            proof {
                reveal_strlit("%2A");
            }
            "%2A"
        },
        43 => {
            proof {
                reveal_strlit("%2B");
            }
            "%2B"
        },
        44 => {
            proof {
                reveal_strlit("%2C");
            }
            "%2C"
        },
        45 => {
            proof {
                reveal_strlit("%2D");
            }
            "%2D"
        },
        46 => {
            proof {
                reveal_strlit("%2E");
            }
            "%2E"
        },
        47 => {
            proof {
                reveal_strlit("%2F");
            }
            "%2F"
        },
        48 => {
            proof {
                reveal_strlit("%30");
            }
            "%30"
        },
        49 => {
            proof {
                reveal_strlit("%31");
            }
            "%31"
        },
        50 => {
            proof {
                reveal_strlit("%32");
            }
            "%32"
        },
        51 => {
            proof {
                reveal_strlit("%33");
            }
            "%33"
        },
        52 => {
            proof {
                reveal_strlit("%34");
            }
            "%34"
        },
        53 => {
            proof {
                reveal_strlit("%35");
            }
            "%35"
        },
        54 => {
            proof {
                reveal_strlit("%36");
            }
            "%36"
        },
        55 => {
            proof {
                reveal_strlit("%37");
            }
            "%37"
        },
        56 => {
            proof {
                reveal_strlit("%38");
            }
            "%38"
        },
        57 => {
            proof {
                reveal_strlit("%39");
            }
            "%39"
        },
        58 => {
            proof {
                reveal_strlit("%3A");
            }
            "%3A"
        },
        59 => {
            proof {
                reveal_strlit("%3B");
            }
            "%3B"
        },
        60 => {
            proof {
                reveal_strlit("%3C");
            }
            "%3C"
        },
        61 => {
            proof {
                reveal_strlit("%3D");
            }
            "%3D"
        },
        62 => {
            proof {
                reveal_strlit("%3E");
            }
            "%3E"
        },
        63 => {
            proof {
                reveal_strlit("%3F");
            }
            "%3F"
        },
        64 => {
            proof {
                reveal_strlit("%40");
            }
            "%40"
        },
        65 => {
            proof {
                reveal_strlit("%41");
            }
            "%41"
        },
        66 => {
            proof {
                reveal_strlit("%42");
            }
            "%42"
        },
        67 => {
            proof {
                reveal_strlit("%43");
            }
            "%43"
        },
        68 => {
            proof {
                reveal_strlit("%44");
            }
            "%44"
        },
        69 => {
            proof {
                reveal_strlit("%45");
            }
            "%45"
        },
        70 => {
            proof {
                reveal_strlit("%46");
            }
            "%46"
        },
        71 => {
            proof {
                reveal_strlit("%47");
            }
            "%47"
        },
        72 => {
            proof {
                reveal_strlit("%48");
            }
            "%48"
        },
        73 => {
            proof {
                reveal_strlit("%49");
            }
            "%49"
        },
        74 => {
            proof {
                reveal_strlit("%4A");
            }
            "%4A"
        },
        75 => {
            proof {
                reveal_strlit("%4B");
            }
            "%4B"
        },
        76 => {
            proof {
                reveal_strlit("%4C");
            }
            "%4C"
        },
        77 => {
            proof {
                reveal_strlit("%4D");
            }
            "%4D"
        },
        78 => {
            proof {
                reveal_strlit("%4E");
            }
            "%4E"
        },
        79 => {
            proof {
                reveal_strlit("%4F");
            }
            "%4F"
        },
        80 => {
            proof {
                reveal_strlit("%50");
            }
            "%50"
        },
        81 => {
            proof {
                reveal_strlit("%51");
            }
            "%51"
        },
        82 => {
            proof {
                reveal_strlit("%52");
            }
            "%52"
        },
        83 => {
            proof {
                reveal_strlit("%53");
            }
            "%53"
        },
        84 => {
            proof {
                reveal_strlit("%54");
            }
            "%54"
        },
        85 => {
            proof {
                reveal_strlit("%55");
            }
            "%55"
        },
        86 => {
            proof {
                reveal_strlit("%56");
            }
            "%56"
        },
        87 => {
            proof {
                reveal_strlit("%57");
            }
            "%57"
        },
        88 => {
            proof {
                reveal_strlit("%58");
            }
            "%58"
        },
        89 => {
            proof {
                reveal_strlit("%59");
            }
            "%59"
        },
        90 => {
            proof {
                reveal_strlit("%5A");
            }
            "%5A"
        },
        91 => {
            proof {
                reveal_strlit("%5B");
            }
            "%5B"
        },
        92 => {
            proof {
                reveal_strlit("%5C");
            }
            "%5C"
        },
        93 => {
            proof {
                reveal_strlit("%5D");
            }
            "%5D"
        },
        94 => {
            proof {
                reveal_strlit("%5E");
            }
            "%5E"
        },
        95 => {
            proof {
                reveal_strlit("%5F");
            }
            "%5F"
        },
        96 => {
            proof {
                reveal_strlit("%60");
            }
            "%60"
        },
        97 => {
            proof {
                reveal_strlit("%61");
            }
            "%61"
        },
        98 => {
            proof {
                reveal_strlit("%62");
            }
            "%62"
        },
        99 => {
            proof {
                reveal_strlit("%63");
            }
            "%63"
        },
        100 => {
            proof {
                reveal_strlit("%64");
            }
            "%64"
        },
        101 => {
            proof {
                reveal_strlit("%65");
            }
            "%65"
        },
        102 => {
            proof {
                reveal_strlit("%66");
            }
            "%66"
        },
        103 => {
            proof {
                reveal_strlit("%67");
            }
            "%67"
        },
        104 => {
            proof {
                reveal_strlit("%68");
            }
            "%68"
        },
        105 => {
            proof {
                reveal_strlit("%69");
            }
            "%69"
        },
        106 => {
            proof {
                reveal_strlit("%6A");
            }
            "%6A"
        },
        107 => {
            proof {
                reveal_strlit("%6B");
            }
            "%6B"
        },
        108 => {
            proof {
                reveal_strlit("%6C");
            }
            "%6C"
        },
        109 => {
            proof {
                reveal_strlit("%6D");
            }
            "%6D"
        },
        110 => {
            proof {
                reveal_strlit("%6E");
            }
            "%6E"
        },
        111 => {
            proof {
                reveal_strlit("%6F");
            }
            "%6F"
        },
        112 => {
            proof {
                reveal_strlit("%70");
            }
            "%70"
        },
        113 => {
            proof {
                reveal_strlit("%71");
            }
            "%71"
        },
        114 => {
            proof {
                reveal_strlit("%72");
            }
            "%72"
        },
        115 => {
            proof {
                reveal_strlit("%73");
            }
            "%73"
        },
        116 => {
            proof {
                reveal_strlit("%74");
            }
            "%74"
        },
        117 => {
            proof {
                reveal_strlit("%75");
            }
            "%75"
        },
        118 => {
            proof {
                reveal_strlit("%76");
            }
            "%76"
        },
        119 => {
            proof {
                reveal_strlit("%77");
            }
            "%77"
        },
        120 => {
            proof {
                reveal_strlit("%78");
            }
            "%78"
        },
        121 => {
            proof {
                reveal_strlit("%79");
            }
            "%79"
        },
        122 => {
            proof {
                reveal_strlit("%7A");
            }
            "%7A"
        },
        123 => {
            proof {
                reveal_strlit("%7B");
            }
            "%7B"
        },
        124 => {
            proof {
                reveal_strlit("%7C");
            }
            "%7C"
        },
        125 => {
            proof {
                reveal_strlit("%7D");
            }
            "%7D"
        },
        126 => {
            proof {
                reveal_strlit("%7E");
            }
            "%7E"
        },
        127 => {
            proof {
                reveal_strlit("%7F");
            }
            "%7F"
        },
        128 => {
            proof {
                reveal_strlit("%80");
            }
            "%80"
        },
        129 => {
            proof {
                reveal_strlit("%81");
            }
            "%81"
        },
        130 => {
            proof {
                reveal_strlit("%82");
            }
            "%82"
        },
        131 => {
            proof {
                reveal_strlit("%83");
            }
            "%83"
        },
        132 => {
            proof {
                reveal_strlit("%84");
            }
            "%84"
        },
        133 => {
            proof {
                reveal_strlit("%85");
            }
            "%85"
        },
        134 => {
            proof {
                reveal_strlit("%86");
            }
            "%86"
        },
        135 => {
            proof {
                reveal_strlit("%87");
            }
            "%87"
        },
        136 => {
            proof {
                reveal_strlit("%88");
            }
            "%88"
        },
        137 => {
            proof {
                reveal_strlit("%89");
            }
            "%89"
        },
        138 => {
            proof {
                reveal_strlit("%8A");
            }
            "%8A"
        },
        139 => {
            proof {
                reveal_strlit("%8B");
            }
            "%8B"
        },
        140 => {
            proof {
                reveal_strlit("%8C");
            }
            "%8C"
        },
        141 => {
            proof {
                reveal_strlit("%8D");
            }
            "%8D"
        },
        142 => {
            proof {
                reveal_strlit("%8E");
            }
            "%8E"
        },
        143 => {
            proof {
                reveal_strlit("%8F");
            }
            "%8F"
        },
        144 => {
            proof {
                reveal_strlit("%90");
            }
            "%90"
        },
        145 => {
            proof {
                reveal_strlit("%91");
            }
            "%91"
        },
        146 => {
            proof {
                reveal_strlit("%92");
            }
            "%92"
        },
        147 => {
            proof {
                reveal_strlit("%93");
            }
            "%93"
        },
        148 => {
            proof {
                reveal_strlit("%94");
            }
            "%94"
        },
        149 => {
            proof {
                reveal_strlit("%95");
            }
            "%95"
        },
        150 => {
            proof {
                reveal_strlit("%96");
            }
            "%96"
        },
        151 => {
            proof {
                reveal_strlit("%97");
            }
            "%97"
        },
        152 => {
            proof {
                reveal_strlit("%98");
            }
            "%98"
        },
        153 => {
            proof {
                reveal_strlit("%99");
            }
            "%99"
        },
        154 => {
            proof {
                reveal_strlit("%9A");
            }
            "%9A"
        },
        155 => {
            proof {
                reveal_strlit("%9B");
            }
            "%9B"
        },
        156 => {
            proof {
                reveal_strlit("%9C");
            }
            "%9C"
        },
        157 => {
            proof {
                reveal_strlit("%9D");
            }
            "%9D"
        },
        158 => {
            proof {
                reveal_strlit("%9E");
            }
            "%9E"
        },
        159 => {
            proof {
                reveal_strlit("%9F");
            }
            "%9F"
        },
        160 => {
            proof {
                reveal_strlit("%A0");
            }
            "%A0"
        },
        161 => {
            proof {
                reveal_strlit("%A1");
            }
            "%A1"
        },
        162 => {
            proof {
                reveal_strlit("%A2");
            }
            "%A2"
        },
        163 => {
            proof {
                reveal_strlit("%A3");
            }
            "%A3"
        },
        164 => {
            proof {
                reveal_strlit("%A4");
            }
            "%A4"
        },
        165 => {
            proof {
                reveal_strlit("%A5");
            }
            "%A5"
        },
        166 => {
            proof {
                reveal_strlit("%A6");
            }
            "%A6"
        },
        167 => {
            proof {
                reveal_strlit("%A7");
            }
            "%A7"
        },
        168 => {
            proof {
                reveal_strlit("%A8");
            }
            "%A8"
        },
        169 => {
            proof {
                reveal_strlit("%A9");
            }
            "%A9"
        },
        170 => {
            proof {
                reveal_strlit("%AA");
            }
            "%AA"
        },
        171 => {
            proof {
                reveal_strlit("%AB");
            }
            "%AB"
        },
        172 => {
            proof {
                reveal_strlit("%AC");
            }
            "%AC"
        },
        173 => {
            proof {
                reveal_strlit("%AD");
            }
            "%AD"
        },
        174 => {
            proof {
                reveal_strlit("%AE");
            }
            "%AE"
        },
        175 => {
            proof {
                reveal_strlit("%AF");
            }
            "%AF"
        },
        176 => {
            proof {
                reveal_strlit("%B0");
            }
            "%B0"
        },
        177 => {
            proof {
                reveal_strlit("%B1");
            }
            "%B1"
        },
        178 => {
            proof {
                reveal_strlit("%B2");
            }
            "%B2"
        },
        179 => {
            proof {
                reveal_strlit("%B3");
            }
            "%B3"
        },
        180 => {
            proof {
                reveal_strlit("%B4");
            }
            "%B4"
        },
        181 => {
            proof {
                reveal_strlit("%B5");
            }
            "%B5"
        },
        182 => {
            proof {
                reveal_strlit("%B6");
            }
            "%B6"
        },
        183 => {
            proof {
                reveal_strlit("%B7");
            }
            "%B7"
        },
        184 => {
            proof {
                reveal_strlit("%B8");
            }
            "%B8"
        },
        185 => {
            proof {
                reveal_strlit("%B9");
            }
            "%B9"
        },
        186 => {
            proof {
                reveal_strlit("%BA");
            }
            "%BA"
        },
        187 => {
            proof {
                reveal_strlit("%BB");
            }
            "%BB"
        },
        188 => {
            proof {
                reveal_strlit("%BC");
            }
            "%BC"
        },
        189 => {
            proof {
                reveal_strlit("%BD");
            }
            "%BD"
        },
        190 => {
            proof {
                reveal_strlit("%BE");
            }
            "%BE"
        },
        191 => {
            proof {
                reveal_strlit("%BF");
            }
            "%BF"
        },
        192 => {
            proof {
                reveal_strlit("%C0");
            }
            "%C0"
        },
        193 => {
            proof {
                reveal_strlit("%C1");
            }
            "%C1"
        },
        194 => {
            proof {
                reveal_strlit("%C2");
            }
            "%C2"
        },
        195 => {
            proof {
                reveal_strlit("%C3");
            }
            "%C3"
        },
        196 => {
            proof {
                reveal_strlit("%C4");
            }
            "%C4"
        },
        197 => {
            proof {
                reveal_strlit("%C5");
            }
            "%C5"
        },
        198 => {
            proof {
                reveal_strlit("%C6");
            }
            "%C6"
        },
        199 => {
            proof {
                reveal_strlit("%C7");
            }
            "%C7"
        },
        200 => {
            proof {
                reveal_strlit("%C8");
            }
            "%C8"
        },
        201 => {
            proof {
                reveal_strlit("%C9");
            }
            "%C9"
        },
        202 => {
            proof {
                reveal_strlit("%CA");
            }
            "%CA"
        },
        203 => {
            proof {
                reveal_strlit("%CB");
            }
            "%CB"
        },
        204 => {
            proof {
                reveal_strlit("%CC");
            }
            "%CC"
        },
        205 => {
            proof {
                reveal_strlit("%CD");
            }
            "%CD"
        },
        206 => {
            proof {
                reveal_strlit("%CE");
            }
            "%CE"
        },
        207 => {
            proof {
                reveal_strlit("%CF");
            }
            "%CF"
        },
        208 => {
            proof {
                reveal_strlit("%D0");
            }
            "%D0"
        },
        209 => {
            proof {
                reveal_strlit("%D1");
            }
            "%D1"
        },
        210 => {
            proof {
                reveal_strlit("%D2");
            }
            "%D2"
        },
        211 => {
            proof {
                reveal_strlit("%D3");
            }
            "%D3"
        },
        212 => {
            proof {
                reveal_strlit("%D4");
            }
            "%D4"
        },
        213 => {
            proof {
                reveal_strlit("%D5");
            }
            "%D5"
        },
        214 => {
            proof {
                reveal_strlit("%D6");
            }
            "%D6"
        },
        215 => {
            proof {
                reveal_strlit("%D7");
            }
            "%D7"
        },
        216 => {
            proof {
                reveal_strlit("%D8");
            }
            "%D8"
        },
        217 => {
            proof {
                reveal_strlit("%D9");
            }
            "%D9"
        },
        218 => {
            proof {
                reveal_strlit("%DA");
            }
            "%DA"
        },
        219 => {
            proof {
                reveal_strlit("%DB");
            }
            "%DB"
        },
        220 => {
            proof {
                reveal_strlit("%DC");
            }
            "%DC"
        },
        221 => {
            proof {
                reveal_strlit("%DD");
            }
            "%DD"
        },
        222 => {
            proof {
                reveal_strlit("%DE");
            }
            "%DE"
        },
        223 => {
            proof {
                reveal_strlit("%DF");
            }
            "%DF"
        },
        224 => {
            proof {
                reveal_strlit("%E0");
            }
            "%E0"
        },
        225 => {
            proof {
                reveal_strlit("%E1");
            }
            "%E1"
        },
        226 => {
            proof {
                reveal_strlit("%E2");
            }
            "%E2"
        },
        227 => {
            proof {
                reveal_strlit("%E3");
            }
            "%E3"
        },
        228 => {
            proof {
                reveal_strlit("%E4");
            }
            "%E4"
        },
        229 => {
            proof {
                reveal_strlit("%E5");
            }
            "%E5"
        },
        230 => {
            proof {
                reveal_strlit("%E6");
            }
            "%E6"
        },
        231 => {
            proof {
                reveal_strlit("%E7");
            }
            "%E7"
        },
        232 => {
            proof {
                reveal_strlit("%E8");
            }
            "%E8"
        },
        233 => {
            proof {
                reveal_strlit("%E9");
            }
            "%E9"
        },
        234 => {
            proof {
                reveal_strlit("%EA");
            }
            "%EA"
        },
        235 => {
            proof {
                reveal_strlit("%EB");
            }
            "%EB"
        },
        236 => {
            proof {
                reveal_strlit("%EC");
            }
            "%EC"
        },
        237 => {
            proof {
                reveal_strlit("%ED");
            }
            "%ED"
        },
        238 => {
            proof {
                reveal_strlit("%EE");
            }
            "%EE"
        },
        239 => {
            proof {
                reveal_strlit("%EF");
            }
            "%EF"
        },
        240 => {
            proof {
                reveal_strlit("%F0");
            }
            "%F0"
        },
        241 => {
            proof {
                reveal_strlit("%F1");
            }
            "%F1"
        },
        242 => {
            proof {
                reveal_strlit("%F2");
            }
            "%F2"
        },
        243 => {
            proof {
                reveal_strlit("%F3");
            }
            "%F3"
        },
        244 => {
            proof {
                reveal_strlit("%F4");
            }
            "%F4"
        },
        245 => {
            proof {
                reveal_strlit("%F5");
            }
            "%F5"
        },
        246 => {
            proof {
                reveal_strlit("%F6");
            }
            "%F6"
        },
        247 => {
            proof {
                reveal_strlit("%F7");
            }
            "%F7"
        },
        248 => {
            proof {
                reveal_strlit("%F8");
            }
            "%F8"
        },
        249 => {
            proof {
                reveal_strlit("%F9");
            }
            "%F9"
        },
        250 => {
            proof {
                reveal_strlit("%FA");
            }
            "%FA"
        },
        251 => {
            proof {
                reveal_strlit("%FB");
            }
            "%FB"
        },
        252 => {
            proof {
                reveal_strlit("%FC");
            }
            "%FC"
        },
        253 => {
            proof {
                reveal_strlit("%FD");
            }
            "%FD"
        },
        254 => {
            proof {
                reveal_strlit("%FE");
            }
            "%FE"
        },
        255 => {
            proof {
                reveal_strlit("%FF");
            }
            "%FF"
        },
    };
    assert(r@ =~= as_text(escape(byte)));
    r
}

} // verus!
