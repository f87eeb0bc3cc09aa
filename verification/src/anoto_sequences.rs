//! The constant code sequences of the 6x6 position code, and the facts about them that
//! decoding relies on: every symbol lies in its alphabet, and every cyclic window
//! (six symbols of the main sequence, five of each secondary one) occurs exactly once.
use vstd::prelude::*;

verus! {

/// Symbol `i` of the main number sequence (binary, length 63).
pub open spec fn mns_at(i: int) -> int {
    if i < 31 { if i < 15 { if i < 7 { if i < 3 { 0 } else { if i < 5 { 0 } else { if i < 6 { 0 } else { 1 } } } } else { if i < 11 { if i < 9 { 0 } else { 1 } } else { if i < 13 { 1 } else { if i < 14 { 1 } else { 0 } } } } } else { if i < 23 { if i < 19 { if i < 17 { if i < 16 { 1 } else { 0 } } else { if i < 18 { 0 } else { 1 } } } else { 0 } } else { if i < 27 { if i < 25 { 1 } else { if i < 26 { 1 } else { 0 } } } else { if i < 29 { 1 } else { if i < 30 { 1 } else { 0 } } } } } } else { if i < 47 { if i < 39 { if i < 35 { if i < 33 { if i < 32 { 0 } else { 1 } } else { if i < 34 { 0 } else { 1 } } } else { if i < 37 { if i < 36 { 0 } else { 1 } } else { 0 } } } else { if i < 43 { if i < 41 { if i < 40 { 0 } else { 1 } } else { if i < 42 { 0 } else { 1 } } } else { if i < 45 { if i < 44 { 1 } else { 0 } } else { 1 } } } } else { if i < 55 { if i < 51 { if i < 49 { 0 } else { 1 } } else { if i < 53 { if i < 52 { 0 } else { 1 } } else { if i < 54 { 0 } else { 1 } } } } else { if i < 59 { if i < 57 { 1 } else { if i < 58 { 1 } else { 0 } } } else { if i < 61 { 0 } else { 1 } } } } }
}

/// Symbol `i` of the first secondary sequence (ternary, length 236).
pub open spec fn a1_at(i: int) -> int {
    if i < 118 { if i < 59 { if i < 29 { if i < 14 { if i < 7 { if i < 3 { 0 } else { if i < 5 { 0 } else { if i < 6 { 1 } else { 0 } } } } else { if i < 10 { 0 } else { if i < 12 { if i < 11 { 2 } else { 0 } } else { if i < 13 { 1 } else { 0 } } } } } else { if i < 21 { if i < 17 { if i < 15 { 0 } else { if i < 16 { 1 } else { 0 } } } else { if i < 19 { if i < 18 { 1 } else { 0 } } else { if i < 20 { 0 } else { 2 } } } } else { if i < 25 { if i < 23 { 0 } else { if i < 24 { 0 } else { 1 } } } else { if i < 27 { if i < 26 { 1 } else { 0 } } else { 0 } } } } } else { if i < 44 { if i < 36 { if i < 32 { if i < 30 { 1 } else { if i < 31 { 2 } else { 0 } } } else { if i < 34 { if i < 33 { 0 } else { 1 } } else { if i < 35 { 0 } else { 2 } } } } else { if i < 40 { if i < 38 { 0 } else { if i < 39 { 2 } else { 0 } } } else { if i < 42 { if i < 41 { 2 } else { 0 } } else { 1 } } } } else { if i < 51 { if i < 47 { if i < 45 { 0 } else { if i < 46 { 1 } else { 0 } } } else { if i < 49 { 1 } else { if i < 50 { 0 } else { 2 } } } } else { if i < 55 { if i < 53 { if i < 52 { 0 } else { 1 } } else { if i < 54 { 2 } else { 0 } } } else { if i < 57 { if i < 56 { 1 } else { 0 } } else { if i < 58 { 1 } else { 2 } } } } } } } else { if i < 88 { if i < 73 { if i < 66 { if i < 62 { if i < 60 { 0 } else { if i < 61 { 2 } else { 1 } } } else { if i < 64 { 0 } else { 1 } } } else { if i < 69 { if i < 67 { 1 } else { if i < 68 { 0 } else { 1 } } } else { if i < 71 { 1 } else { if i < 72 { 1 } else { 0 } } } } } else { if i < 80 { if i < 76 { if i < 74 { 2 } else { if i < 75 { 1 } else { 0 } } } else { if i < 78 { if i < 77 { 1 } else { 0 } } else { if i < 79 { 2 } else { 1 } } } } else { if i < 84 { if i < 82 { if i < 81 { 1 } else { 0 } } else { if i < 83 { 0 } else { 1 } } } else { if i < 86 { if i < 85 { 2 } else { 1 } } else { if i < 87 { 0 } else { 1 } } } } } } else { if i < 103 { if i < 95 { if i < 91 { if i < 89 { 1 } else { if i < 90 { 2 } else { 0 } } } else { if i < 93 { 0 } else { if i < 94 { 2 } else { 1 } } } } else { if i < 99 { if i < 97 { if i < 96 { 0 } else { 2 } } else { if i < 98 { 0 } else { 2 } } } else { if i < 101 { 1 } else { if i < 102 { 1 } else { 0 } } } } } else { if i < 110 { if i < 106 { if i < 104 { 0 } else { if i < 105 { 2 } else { 1 } } } else { if i < 108 { if i < 107 { 2 } else { 0 } } else { 1 } } } else { if i < 114 { if i < 112 { if i < 111 { 1 } else { 2 } } else { if i < 113 { 0 } else { 2 } } } else { if i < 116 { 0 } else { 1 } } } } } } } else { if i < 177 { if i < 147 { if i < 132 { if i < 125 { if i < 121 { if i < 119 { 2 } else { if i < 120 { 1 } else { 0 } } } else { if i < 123 { 0 } else { 2 } } } else { if i < 128 { if i < 126 { 0 } else { if i < 127 { 1 } else { 0 } } } else { if i < 130 { 2 } else { 0 } } } } else { if i < 139 { if i < 135 { if i < 133 { 1 } else { 2 } } else { if i < 137 { if i < 136 { 0 } else { 2 } } else { if i < 138 { 0 } else { 2 } } } } else { if i < 143 { if i < 141 { if i < 140 { 2 } else { 1 } } else { if i < 142 { 0 } else { 1 } } } else { if i < 145 { if i < 144 { 2 } else { 1 } } else { if i < 146 { 2 } else { 1 } } } } } } else { if i < 162 { if i < 154 { if i < 150 { if i < 148 { 0 } else { if i < 149 { 2 } else { 1 } } } else { if i < 152 { if i < 151 { 2 } else { 1 } } else { if i < 153 { 1 } else { 0 } } } } else { if i < 158 { if i < 156 { 2 } else { if i < 157 { 1 } else { 2 } } } else { if i < 160 { if i < 159 { 1 } else { 2 } } else { if i < 161 { 0 } else { 2 } } } } } else { if i < 169 { if i < 165 { if i < 163 { 2 } else { if i < 164 { 0 } else { 2 } } } else { if i < 167 { 2 } else { if i < 168 { 0 } else { 1 } } } } else { if i < 173 { if i < 171 { if i < 170 { 1 } else { 2 } } else { if i < 172 { 2 } else { 1 } } } else { if i < 175 { if i < 174 { 1 } else { 0 } } else { if i < 176 { 1 } else { 2 } } } } } } } else { if i < 206 { if i < 191 { if i < 184 { if i < 180 { 2 } else { if i < 182 { if i < 181 { 1 } else { 2 } } else { 0 } } } else { if i < 187 { if i < 185 { 2 } else { if i < 186 { 2 } else { 1 } } } else { if i < 189 { if i < 188 { 1 } else { 2 } } else { if i < 190 { 1 } else { 2 } } } } } else { if i < 198 { if i < 194 { if i < 192 { 2 } else { if i < 193 { 1 } else { 0 } } } else { 2 } } else { if i < 202 { if i < 200 { if i < 199 { 2 } else { 0 } } else { if i < 201 { 2 } else { 1 } } } else { if i < 204 { 2 } else { if i < 205 { 2 } else { 1 } } } } } } else { if i < 221 { if i < 213 { if i < 209 { if i < 207 { 1 } else { if i < 208 { 1 } else { 2 } } } else { if i < 211 { 1 } else { if i < 212 { 2 } else { 0 } } } } else { if i < 217 { if i < 215 { if i < 214 { 1 } else { 2 } } else { if i < 216 { 2 } else { 1 } } } else { if i < 219 { 2 } else { if i < 220 { 0 } else { 1 } } } } } else { if i < 228 { if i < 224 { if i < 222 { 2 } else { 1 } } else { if i < 226 { 1 } else { 2 } } } else { if i < 232 { if i < 230 { if i < 229 { 2 } else { 0 } } else { if i < 231 { 0 } else { 2 } } } else { if i < 234 { 1 } else { 2 } } } } } } }
}

/// Symbol `i` of the second secondary sequence (ternary, length 233).
pub open spec fn a2_at(i: int) -> int {
    if i < 116 { if i < 58 { if i < 29 { if i < 14 { if i < 7 { if i < 3 { if i < 1 { 1 } else { if i < 2 { 2 } else { 0 } } } else { if i < 5 { if i < 4 { 0 } else { 1 } } else { 2 } } } else { if i < 10 { if i < 8 { 1 } else { if i < 9 { 0 } else { 2 } } } else { if i < 12 { if i < 11 { 1 } else { 2 } } else { 1 } } } } else { if i < 21 { if i < 17 { if i < 15 { 2 } else { if i < 16 { 2 } else { 1 } } } else { if i < 19 { if i < 18 { 2 } else { 1 } } else { if i < 20 { 2 } else { 1 } } } } else { if i < 25 { if i < 23 { if i < 22 { 0 } else { 2 } } else { if i < 24 { 0 } else { 2 } } } else { if i < 27 { if i < 26 { 2 } else { 0 } } else { if i < 28 { 1 } else { 0 } } } } } } else { if i < 43 { if i < 36 { if i < 32 { if i < 30 { 0 } else { if i < 31 { 0 } else { 1 } } } else { if i < 34 { 0 } else { if i < 35 { 2 } else { 0 } } } } else { if i < 39 { if i < 37 { 2 } else { if i < 38 { 1 } else { 2 } } } else { if i < 41 { if i < 40 { 0 } else { 1 } } else { if i < 42 { 2 } else { 0 } } } } } else { if i < 50 { if i < 46 { 1 } else { if i < 48 { if i < 47 { 1 } else { 0 } } else { 0 } } } else { if i < 54 { if i < 52 { if i < 51 { 0 } else { 2 } } else { if i < 53 { 1 } else { 2 } } } else { if i < 56 { if i < 55 { 2 } else { 1 } } else { if i < 57 { 1 } else { 0 } } } } } } } else { if i < 87 { if i < 72 { if i < 65 { if i < 61 { if i < 59 { 0 } else { 2 } } else { if i < 63 { 1 } else { if i < 64 { 2 } else { 1 } } } } else { if i < 68 { if i < 66 { 1 } else { if i < 67 { 0 } else { 2 } } } else { if i < 70 { if i < 69 { 2 } else { 1 } } else { if i < 71 { 0 } else { 1 } } } } } else { if i < 79 { if i < 75 { if i < 73 { 2 } else { if i < 74 { 1 } else { 0 } } } else { if i < 77 { 0 } else { 2 } } } else { if i < 83 { if i < 81 { 0 } else { 2 } } else { if i < 85 { if i < 84 { 2 } else { 0 } } else { if i < 86 { 1 } else { 2 } } } } } } else { if i < 101 { if i < 94 { if i < 90 { 1 } else { if i < 92 { 1 } else { if i < 93 { 2 } else { 0 } } } } else { if i < 97 { if i < 95 { 0 } else { if i < 96 { 2 } else { 1 } } } else { if i < 99 { 1 } else { if i < 100 { 0 } else { 1 } } } } } else { if i < 108 { if i < 104 { if i < 102 { 0 } else { 1 } } else { if i < 106 { if i < 105 { 1 } else { 0 } } else { if i < 107 { 2 } else { 0 } } } } else { if i < 112 { if i < 110 { if i < 109 { 0 } else { 2 } } else { 0 } } else { if i < 114 { if i < 113 { 0 } else { 2 } } else { if i < 115 { 0 } else { 1 } } } } } } } } else { if i < 174 { if i < 145 { if i < 130 { if i < 123 { if i < 119 { 2 } else { if i < 121 { if i < 120 { 1 } else { 0 } } else { if i < 122 { 0 } else { 1 } } } } else { if i < 126 { if i < 124 { 1 } else { if i < 125 { 1 } else { 2 } } } else { if i < 128 { if i < 127 { 1 } else { 0 } } else { if i < 129 { 1 } else { 0 } } } } } else { if i < 137 { if i < 133 { if i < 131 { 2 } else { if i < 132 { 2 } else { 0 } } } else { 2 } } else { if i < 141 { if i < 139 { if i < 138 { 2 } else { 1 } } else { 1 } } else { if i < 143 { 2 } else { if i < 144 { 0 } else { 1 } } } } } } else { if i < 159 { if i < 152 { if i < 148 { if i < 146 { 1 } else { if i < 147 { 0 } else { 2 } } } else { if i < 150 { 1 } else { if i < 151 { 0 } else { 1 } } } } else { if i < 155 { if i < 153 { 2 } else { if i < 154 { 0 } else { 2 } } } else { if i < 157 { 0 } else { if i < 158 { 1 } else { 0 } } } } } else { if i < 166 { if i < 162 { if i < 160 { 2 } else { if i < 161 { 1 } else { 0 } } } else { if i < 164 { 2 } else { if i < 165 { 2 } else { 1 } } } } else { if i < 170 { if i < 168 { if i < 167 { 2 } else { 0 } } else { 2 } } else { if i < 172 { if i < 171 { 1 } else { 2 } } else { 2 } } } } } } else { if i < 203 { if i < 188 { if i < 181 { if i < 177 { if i < 175 { 2 } else { if i < 176 { 0 } else { 2 } } } else { if i < 179 { 1 } else { if i < 180 { 2 } else { 0 } } } } else { if i < 184 { if i < 182 { 2 } else { if i < 183 { 1 } else { 0 } } } else { if i < 186 { 1 } else { 2 } } } } else { if i < 195 { if i < 191 { if i < 189 { 2 } else { 0 } } else { if i < 193 { if i < 192 { 0 } else { 1 } } else { if i < 194 { 1 } else { 2 } } } } else { if i < 199 { if i < 197 { if i < 196 { 1 } else { 2 } } else { if i < 198 { 2 } else { 0 } } } else { if i < 201 { if i < 200 { 2 } else { 0 } } else { if i < 202 { 2 } else { 0 } } } } } } else { if i < 218 { if i < 210 { if i < 206 { if i < 204 { 1 } else { if i < 205 { 1 } else { 2 } } } else { if i < 208 { if i < 207 { 0 } else { 1 } } else { if i < 209 { 0 } else { 2 } } } } else { if i < 214 { if i < 212 { if i < 211 { 0 } else { 1 } } else { if i < 213 { 0 } else { 1 } } } else { if i < 216 { 2 } else { 0 } } } } else { if i < 225 { if i < 221 { if i < 219 { 1 } else { if i < 220 { 1 } else { 0 } } } else { if i < 223 { 1 } else { 0 } } } else { if i < 229 { if i < 227 { if i < 226 { 1 } else { 2 } } else { if i < 228 { 1 } else { 2 } } } else { 0 } } } } } }
}

/// Symbol `i` of the third secondary sequence (binary, length 31).
pub open spec fn a3_at(i: int) -> int {
    if i < 15 { if i < 7 { if i < 3 { if i < 1 { 1 } else { if i < 2 { 1 } else { 0 } } } else { if i < 5 { if i < 4 { 0 } else { 1 } } else { 1 } } } else { if i < 11 { if i < 9 { if i < 8 { 0 } else { 1 } } else { if i < 10 { 1 } else { 0 } } } else { if i < 13 { if i < 12 { 1 } else { 0 } } else { 1 } } } } else { if i < 23 { if i < 19 { if i < 17 { 1 } else { if i < 18 { 1 } else { 0 } } } else { if i < 21 { 0 } else { if i < 22 { 1 } else { 0 } } } } else { if i < 27 { if i < 25 { if i < 24 { 0 } else { 1 } } else { if i < 26 { 0 } else { 1 } } } else { 0 } } }
}

/// Symbol `i` of the fourth secondary sequence (ternary, length 241).
pub open spec fn a4_at(i: int) -> int {
    if i < 120 { if i < 60 { if i < 30 { if i < 15 { if i < 7 { if i < 3 { if i < 1 { 1 } else { 2 } } else { if i < 5 { if i < 4 { 2 } else { 1 } } else { if i < 6 { 1 } else { 0 } } } } else { if i < 11 { if i < 9 { 0 } else { if i < 10 { 0 } else { 2 } } } else { if i < 13 { 0 } else { if i < 14 { 2 } else { 1 } } } } } else { if i < 22 { if i < 18 { if i < 16 { 1 } else { if i < 17 { 1 } else { 2 } } } else { if i < 20 { if i < 19 { 2 } else { 1 } } else { 0 } } } else { if i < 26 { if i < 24 { if i < 23 { 0 } else { 2 } } else { if i < 25 { 2 } else { 0 } } } else { if i < 28 { if i < 27 { 1 } else { 0 } } else { 0 } } } } } else { if i < 45 { if i < 37 { if i < 33 { if i < 31 { 1 } else { if i < 32 { 0 } else { 2 } } } else { if i < 35 { if i < 34 { 2 } else { 0 } } else { 0 } } } else { if i < 41 { if i < 39 { if i < 38 { 2 } else { 1 } } else { if i < 40 { 0 } else { 2 } } } else { if i < 43 { 1 } else { if i < 44 { 2 } else { 1 } } } } } else { if i < 52 { if i < 48 { if i < 46 { 1 } else { 2 } } else { if i < 50 { 2 } else { if i < 51 { 2 } else { 1 } } } } else { if i < 56 { if i < 54 { if i < 53 { 2 } else { 1 } } else { if i < 55 { 1 } else { 0 } } } else { if i < 58 { 1 } else { if i < 59 { 1 } else { 2 } } } } } } } else { if i < 90 { if i < 75 { if i < 67 { if i < 63 { if i < 61 { 1 } else { 2 } } else { if i < 65 { if i < 64 { 0 } else { 2 } } else { if i < 66 { 0 } else { 1 } } } } else { if i < 71 { if i < 69 { if i < 68 { 0 } else { 1 } } else { 2 } } else { if i < 73 { if i < 72 { 1 } else { 2 } } else { 0 } } } } else { if i < 82 { if i < 78 { if i < 76 { 2 } else { if i < 77 { 0 } else { 1 } } } else { if i < 80 { 1 } else { if i < 81 { 1 } else { 2 } } } } else { if i < 86 { if i < 84 { if i < 83 { 0 } else { 1 } } else { if i < 85 { 2 } else { 1 } } } else { 1 } } } } else { if i < 105 { if i < 97 { if i < 93 { if i < 91 { 0 } else { if i < 92 { 0 } else { 2 } } } else { if i < 95 { if i < 94 { 1 } else { 2 } } else { if i < 96 { 1 } else { 0 } } } } else { if i < 101 { if i < 99 { 1 } else { if i < 100 { 2 } else { 1 } } } else { if i < 103 { 0 } else { 1 } } } } else { if i < 112 { if i < 108 { if i < 106 { 0 } else { if i < 107 { 2 } else { 1 } } } else { if i < 110 { 2 } else { if i < 111 { 2 } else { 0 } } } } else { if i < 116 { if i < 114 { if i < 113 { 0 } else { 2 } } else { if i < 115 { 2 } else { 1 } } } else { if i < 118 { if i < 117 { 1 } else { 2 } } else { if i < 119 { 0 } else { 2 } } } } } } } } else { if i < 180 { if i < 150 { if i < 135 { if i < 127 { if i < 123 { if i < 121 { 0 } else { if i < 122 { 2 } else { 1 } } } else { if i < 125 { if i < 124 { 2 } else { 0 } } else { 2 } } } else { if i < 131 { if i < 129 { if i < 128 { 1 } else { 0 } } else { 2 } } else { if i < 133 { 2 } else { if i < 134 { 0 } else { 1 } } } } } else { if i < 142 { if i < 138 { if i < 136 { 1 } else { 2 } } else { if i < 140 { 0 } else { if i < 141 { 1 } else { 0 } } } } else { if i < 146 { if i < 144 { if i < 143 { 0 } else { 1 } } else { if i < 145 { 0 } else { 1 } } } else { if i < 148 { if i < 147 { 1 } else { 0 } } else { if i < 149 { 0 } else { 1 } } } } } } else { if i < 165 { if i < 157 { if i < 153 { if i < 151 { 2 } else { if i < 152 { 1 } else { 2 } } } else { if i < 155 { if i < 154 { 0 } else { 1 } } else { if i < 156 { 1 } else { 0 } } } } else { if i < 161 { if i < 159 { if i < 158 { 1 } else { 2 } } else { if i < 160 { 0 } else { 1 } } } else { if i < 163 { if i < 162 { 0 } else { 2 } } else { if i < 164 { 1 } else { 0 } } } } } else { if i < 172 { if i < 168 { if i < 166 { 1 } else { if i < 167 { 2 } else { 1 } } } else { if i < 170 { if i < 169 { 0 } else { 2 } } else { 0 } } } else { if i < 176 { if i < 174 { if i < 173 { 1 } else { 2 } } else { 0 } } else { if i < 178 { if i < 177 { 0 } else { 1 } } else { if i < 179 { 1 } else { 2 } } } } } } } else { if i < 210 { if i < 195 { if i < 187 { if i < 183 { if i < 181 { 0 } else { if i < 182 { 0 } else { 1 } } } else { if i < 185 { 1 } else { if i < 186 { 0 } else { 2 } } } } else { if i < 191 { if i < 189 { if i < 188 { 2 } else { 1 } } else { 2 } } else { if i < 193 { 1 } else { if i < 194 { 1 } else { 0 } } } } } else { if i < 202 { if i < 198 { if i < 196 { 1 } else { 0 } } else { if i < 200 { 2 } else { if i < 201 { 2 } else { 1 } } } } else { if i < 206 { if i < 204 { if i < 203 { 0 } else { 1 } } else { if i < 205 { 0 } else { 1 } } } else { if i < 208 { if i < 207 { 0 } else { 2 } } else { if i < 209 { 0 } else { 2 } } } } } } else { if i < 225 { if i < 217 { if i < 213 { if i < 211 { 2 } else { if i < 212 { 2 } else { 0 } } } else { if i < 215 { 2 } else { if i < 216 { 0 } else { 2 } } } } else { if i < 221 { if i < 219 { 1 } else { if i < 220 { 0 } else { 2 } } } else { if i < 223 { if i < 222 { 0 } else { 1 } } else { 2 } } } } else { if i < 233 { if i < 229 { if i < 227 { if i < 226 { 0 } else { 1 } } else { if i < 228 { 2 } else { 0 } } } else { if i < 231 { if i < 230 { 2 } else { 1 } } else { 0 } } } else { if i < 237 { if i < 235 { if i < 234 { 2 } else { 0 } } else { if i < 236 { 2 } else { 0 } } } else { 0 } } } } } }
}

/// Position at which each cyclic window of mns starts, indexed by the window read as a base-2 number.
spec fn mns_window_table(c: int) -> int {
    if c < 32 { if c < 16 { if c < 8 { if c < 4 { if c < 2 { if c < 1 { 0 } else { 62 } } else { if c < 3 { 17 } else { 61 } } } else { if c < 6 { if c < 5 { 16 } else { 34 } } else { if c < 7 { 60 } else { 55 } } } } else { if c < 12 { if c < 10 { if c < 9 { 3 } else { 15 } } else { if c < 11 { 33 } else { 12 } } } else { if c < 14 { if c < 13 { 59 } else { 43 } } else { if c < 15 { 26 } else { 54 } } } } } else { if c < 24 { if c < 20 { if c < 18 { if c < 17 { 2 } else { 36 } } else { if c < 19 { 14 } else { 28 } } } else { if c < 22 { if c < 21 { 30 } else { 32 } } else { if c < 23 { 48 } else { 11 } } } } else { if c < 28 { if c < 26 { if c < 25 { 58 } else { 46 } } else { if c < 27 { 39 } else { 42 } } } else { if c < 30 { if c < 29 { 21 } else { 25 } } else { if c < 31 { 53 } else { 9 } } } } } } else { if c < 48 { if c < 40 { if c < 36 { if c < 34 { if c < 33 { 1 } else { 18 } } else { if c < 35 { 35 } else { 56 } } } else { if c < 38 { if c < 37 { 4 } else { 13 } } else { if c < 39 { 44 } else { 27 } } } } else { if c < 44 { if c < 42 { if c < 41 { 37 } else { 29 } } else { if c < 43 { 31 } else { 49 } } } else { if c < 46 { if c < 45 { 47 } else { 40 } } else { if c < 47 { 22 } else { 10 } } } } } else { if c < 56 { if c < 52 { if c < 50 { if c < 49 { 19 } else { 57 } } else { if c < 51 { 5 } else { 45 } } } else { if c < 54 { if c < 53 { 38 } else { 50 } } else { if c < 55 { 41 } else { 23 } } } } else { if c < 60 { if c < 58 { if c < 57 { 20 } else { 6 } } else { if c < 59 { 51 } else { 24 } } } else { if c < 62 { if c < 61 { 7 } else { 52 } } else { if c < 63 { 8 } else { -1 } } } } } }
}

/// The cyclic window of mns that starts at `p`, read as a base-2 number.
spec fn mns_window_code(p: int) -> int {
    mns_at((p + 0) % 63) + 2 * (mns_at((p + 1) % 63) + 2 * (mns_at((p + 2) % 63) + 2 * (mns_at((p + 3) % 63) + 2 * (mns_at((p + 4) % 63) + 2 * (mns_at((p + 5) % 63))))))
}

#[verifier::rlimit(60)]
proof fn lemma_mns_table_0()
    ensures
        forall|i: int| 0 <= i < 63 ==> mns_window_table(#[trigger] mns_window_code(i)) == i,
{
    assert forall|i: int| 0 <= i < 63 implies mns_window_table(#[trigger] mns_window_code(i)) == i by {
        if i < 31 { if i < 15 { if i < 7 { if i < 3 { if i < 1 { {} } else { if i < 2 { {} } else { {} } } } else { if i < 5 { if i < 4 { {} } else { {} } } else { if i < 6 { {} } else { {} } } } } else { if i < 11 { if i < 9 { if i < 8 { {} } else { {} } } else { if i < 10 { {} } else { {} } } } else { if i < 13 { if i < 12 { {} } else { {} } } else { if i < 14 { {} } else { {} } } } } } else { if i < 23 { if i < 19 { if i < 17 { if i < 16 { {} } else { {} } } else { if i < 18 { {} } else { {} } } } else { if i < 21 { if i < 20 { {} } else { {} } } else { if i < 22 { {} } else { {} } } } } else { if i < 27 { if i < 25 { if i < 24 { {} } else { {} } } else { if i < 26 { {} } else { {} } } } else { if i < 29 { if i < 28 { {} } else { {} } } else { if i < 30 { {} } else { {} } } } } } } else { if i < 47 { if i < 39 { if i < 35 { if i < 33 { if i < 32 { {} } else { {} } } else { if i < 34 { {} } else { {} } } } else { if i < 37 { if i < 36 { {} } else { {} } } else { if i < 38 { {} } else { {} } } } } else { if i < 43 { if i < 41 { if i < 40 { {} } else { {} } } else { if i < 42 { {} } else { {} } } } else { if i < 45 { if i < 44 { {} } else { {} } } else { if i < 46 { {} } else { {} } } } } } else { if i < 55 { if i < 51 { if i < 49 { if i < 48 { {} } else { {} } } else { if i < 50 { {} } else { {} } } } else { if i < 53 { if i < 52 { {} } else { {} } } else { if i < 54 { {} } else { {} } } } } else { if i < 59 { if i < 57 { if i < 56 { {} } else { {} } } else { if i < 58 { {} } else { {} } } } else { if i < 61 { if i < 60 { {} } else { {} } } else { if i < 62 { {} } else { {} } } } } } }
    }
}

proof fn lemma_mns_table()
    ensures
        forall|i: int| 0 <= i < 63 ==> mns_window_table(#[trigger] mns_window_code(i)) == i,
{
    lemma_mns_table_0();
}

/// Two cyclic windows of mns with the same symbols start at the same position.
pub proof fn lemma_mns_window_unique(p: int, q: int)
    requires
        0 <= p < 63,
        0 <= q < 63,
        forall|j: int| 0 <= j < 6 ==> #[trigger] mns_at((p + j) % 63) == mns_at((q + j) % 63),
    ensures
        p == q,
{
    assert(mns_at((p + 0) % 63) == mns_at((q + 0) % 63));
    assert(mns_at((p + 1) % 63) == mns_at((q + 1) % 63));
    assert(mns_at((p + 2) % 63) == mns_at((q + 2) % 63));
    assert(mns_at((p + 3) % 63) == mns_at((q + 3) % 63));
    assert(mns_at((p + 4) % 63) == mns_at((q + 4) % 63));
    assert(mns_at((p + 5) % 63) == mns_at((q + 5) % 63));
    lemma_mns_table();
    assert(mns_window_code(p) == mns_window_code(q));
}

/// Every symbol of mns lies in its alphabet.
pub proof fn lemma_mns_range(i: int)
    ensures
        0 <= mns_at(i) < 2,
{
}

/// Symbol `i` of the main number sequence (binary, length 63).
pub fn mns_value(i: usize) -> (v: i8)
    ensures
        v == mns_at(i as int),
{
    if i < 31 { if i < 15 { if i < 7 { if i < 3 { 0i8 } else { if i < 5 { 0i8 } else { if i < 6 { 0i8 } else { 1i8 } } } } else { if i < 11 { if i < 9 { 0i8 } else { 1i8 } } else { if i < 13 { 1i8 } else { if i < 14 { 1i8 } else { 0i8 } } } } } else { if i < 23 { if i < 19 { if i < 17 { if i < 16 { 1i8 } else { 0i8 } } else { if i < 18 { 0i8 } else { 1i8 } } } else { 0i8 } } else { if i < 27 { if i < 25 { 1i8 } else { if i < 26 { 1i8 } else { 0i8 } } } else { if i < 29 { 1i8 } else { if i < 30 { 1i8 } else { 0i8 } } } } } } else { if i < 47 { if i < 39 { if i < 35 { if i < 33 { if i < 32 { 0i8 } else { 1i8 } } else { if i < 34 { 0i8 } else { 1i8 } } } else { if i < 37 { if i < 36 { 0i8 } else { 1i8 } } else { 0i8 } } } else { if i < 43 { if i < 41 { if i < 40 { 0i8 } else { 1i8 } } else { if i < 42 { 0i8 } else { 1i8 } } } else { if i < 45 { if i < 44 { 1i8 } else { 0i8 } } else { 1i8 } } } } else { if i < 55 { if i < 51 { if i < 49 { 0i8 } else { 1i8 } } else { if i < 53 { if i < 52 { 0i8 } else { 1i8 } } else { if i < 54 { 0i8 } else { 1i8 } } } } else { if i < 59 { if i < 57 { 1i8 } else { if i < 58 { 1i8 } else { 0i8 } } } else { if i < 61 { 0i8 } else { 1i8 } } } } }
}

/// Position at which each cyclic window of a1 starts, indexed by the window read as a base-3 number.
spec fn a1_window_table(c: int) -> int {
    if c < 121 { if c < 60 { if c < 30 { if c < 15 { if c < 7 { if c < 3 { if c < 1 { 0 } else { if c < 2 { 5 } else { 235 } } } else { if c < 5 { if c < 4 { 4 } else { 24 } } else { if c < 6 { 118 } else { 19 } } } } else { if c < 11 { if c < 9 { if c < 8 { 88 } else { 234 } } else { if c < 10 { 3 } else { 15 } } } else { if c < 13 { if c < 12 { 10 } else { 23 } } else { if c < 14 { 99 } else { 78 } } } } } else { if c < 22 { if c < 18 { if c < 16 { 59 } else { if c < 17 { 117 } else { -1 } } } else { if c < 20 { if c < 19 { 18 } else { 33 } } else { if c < 21 { 111 } else { 28 } } } } else { if c < 26 { if c < 24 { if c < 23 { 87 } else { 179 } } else { if c < 25 { 127 } else { 233 } } } else { if c < 28 { if c < 27 { 226 } else { 2 } } else { if c < 29 { 12 } else { 30 } } } } } } else { if c < 45 { if c < 37 { if c < 33 { if c < 31 { 14 } else { if c < 32 { 42 } else { 73 } } } else { if c < 35 { if c < 34 { 9 } else { 52 } } else { if c < 36 { 123 } else { 22 } } } } else { if c < 41 { if c < 39 { if c < 38 { 45 } else { 40 } } else { if c < 40 { 63 } else { 68 } } } else { if c < 43 { if c < 42 { 98 } else { 77 } } else { if c < 44 { 149 } else { 170 } } } } } else { if c < 52 { if c < 48 { if c < 46 { 91 } else { if c < 47 { 71 } else { 58 } } } else { if c < 50 { if c < 49 { 82 } else { 116 } } else { if c < 51 { 143 } else { 137 } } } } else { if c < 56 { if c < 54 { if c < 53 { 189 } else { -1 } } else { if c < 55 { 7 } else { 17 } } } else { if c < 58 { if c < 57 { 35 } else { 32 } } else { if c < 59 { 47 } else { 93 } } } } } } } else { if c < 90 { if c < 75 { if c < 67 { if c < 63 { if c < 61 { 37 } else { if c < 62 { 110 } else { 133 } } } else { if c < 65 { if c < 64 { 27 } else { 55 } } else { if c < 66 { 50 } else { 86 } } } } else { if c < 71 { if c < 69 { if c < 68 { 108 } else { 208 } } else { if c < 70 { 103 } else { 156 } } } else { if c < 73 { if c < 72 { 178 } else { 121 } } else { if c < 74 { 126 } else { 159 } } } } } else { if c < 82 { if c < 78 { if c < 76 { 131 } else { if c < 77 { 232 } else { 215 } } } else { if c < 80 { if c < 79 { 163 } else { 225 } } else { if c < 81 { 195 } else { 1 } } } } else { if c < 86 { if c < 84 { if c < 83 { 25 } else { 20 } } else { if c < 85 { 11 } else { 79 } } } else { if c < 88 { if c < 87 { 60 } else { 112 } } else { if c < 89 { 29 } else { 128 } } } } } } else { if c < 105 { if c < 97 { if c < 93 { if c < 91 { 13 } else { if c < 92 { 43 } else { 53 } } } else { if c < 95 { if c < 94 { 41 } else { 64 } } else { if c < 96 { 171 } else { 72 } } } } else { if c < 101 { if c < 99 { if c < 98 { 83 } else { 138 } } else { if c < 100 { 8 } else { 48 } } } else { if c < 103 { if c < 102 { 38 } else { 51 } } else { if c < 104 { 209 } else { 104 } } } } } else { if c < 113 { if c < 109 { if c < 107 { if c < 106 { 122 } else { 216 } } else { if c < 108 { 164 } else { 21 } } } else { if c < 111 { if c < 110 { 61 } else { 113 } } else { if c < 112 { 44 } else { 65 } } } } else { if c < 117 { if c < 115 { if c < 114 { 84 } else { 39 } } else { if c < 116 { 105 } else { 165 } } } else { if c < 119 { if c < 118 { 62 } else { 66 } } else { if c < 120 { 106 } else { 67 } } } } } } } } else { if c < 182 { if c < 151 { if c < 136 { if c < 128 { if c < 124 { if c < 122 { -1 } else { if c < 123 { 221 } else { 97 } } } else { if c < 126 { if c < 125 { 220 } else { 203 } } else { if c < 127 { 229 } else { 76 } } } } else { if c < 132 { if c < 130 { if c < 129 { 96 } else { 219 } } else { if c < 131 { 206 } else { 148 } } } else { if c < 134 { if c < 133 { 183 } else { 169 } } else { if c < 135 { 202 } else { 90 } } } } } else { if c < 143 { if c < 139 { if c < 137 { 101 } else { if c < 138 { 228 } else { 75 } } } else { if c < 141 { if c < 140 { 70 } else { 145 } } else { if c < 142 { 95 } else { 57 } } } } else { if c < 147 { if c < 145 { if c < 144 { 197 } else { 81 } } else { if c < 146 { 140 } else { 218 } } } else { if c < 149 { if c < 148 { 115 } else { 205 } } else { if c < 150 { 185 } else { 147 } } } } } } else { if c < 166 { if c < 158 { if c < 154 { if c < 152 { 142 } else { if c < 153 { 154 } else { 182 } } } else { if c < 156 { if c < 155 { 152 } else { 136 } } else { if c < 157 { 212 } else { 168 } } } } else { if c < 162 { if c < 160 { if c < 159 { 188 } else { -1 } } else { if c < 161 { 201 } else { 176 } } } else { if c < 164 { if c < 163 { 6 } else { 119 } } else { if c < 165 { 89 } else { 16 } } } } } else { if c < 174 { if c < 170 { if c < 168 { if c < 167 { 100 } else { -1 } } else { if c < 169 { 34 } else { 180 } } } else { if c < 172 { if c < 171 { 227 } else { 31 } } else { if c < 173 { 74 } else { 124 } } } } else { if c < 178 { if c < 176 { if c < 175 { 46 } else { 69 } } else { if c < 177 { 150 } else { 92 } } } else { if c < 180 { if c < 179 { 144 } else { 190 } } else { if c < 181 { 36 } else { 94 } } } } } } } else { if c < 212 { if c < 197 { if c < 189 { if c < 185 { if c < 183 { 134 } else { if c < 184 { 56 } else { 109 } } } else { if c < 187 { if c < 186 { 157 } else { 160 } } else { if c < 188 { 132 } else { 196 } } } } else { if c < 193 { if c < 191 { if c < 190 { 26 } else { 80 } } else { if c < 192 { 129 } else { 54 } } } else { if c < 195 { if c < 194 { 172 } else { 139 } } else { if c < 196 { 49 } else { 210 } } } } } else { if c < 204 { if c < 200 { if c < 198 { 217 } else { if c < 199 { 114 } else { 85 } } } else { if c < 202 { if c < 201 { 166 } else { 107 } } else { if c < 203 { 222 } else { 204 } } } } else { if c < 208 { if c < 206 { if c < 205 { 230 } else { 207 } } else { if c < 207 { 184 } else { 102 } } } else { if c < 210 { if c < 209 { 146 } else { 198 } } else { if c < 211 { 141 } else { 186 } } } } } } else { if c < 227 { if c < 219 { if c < 215 { if c < 213 { 155 } else { if c < 214 { 153 } else { 213 } } } else { if c < 217 { if c < 216 { 177 } else { 120 } } else { if c < 218 { -1 } else { 181 } } } } else { if c < 223 { if c < 221 { if c < 220 { 125 } else { 151 } } else { if c < 222 { 191 } else { 135 } } } else { if c < 225 { if c < 224 { 158 } else { 161 } } else { if c < 226 { 130 } else { 173 } } } } } else { if c < 235 { if c < 231 { if c < 229 { if c < 228 { 211 } else { 167 } } else { if c < 230 { 223 } else { 231 } } } else { if c < 233 { if c < 232 { 199 } else { 187 } } else { if c < 234 { 214 } else { -1 } } } } else { if c < 239 { if c < 237 { if c < 236 { 192 } else { 162 } } else { if c < 238 { 174 } else { 224 } } } else { if c < 241 { if c < 240 { 200 } else { 193 } } else { if c < 242 { 175 } else { 194 } } } } } } } }
}

/// The cyclic window of a1 that starts at `p`, read as a base-3 number.
spec fn a1_window_code(p: int) -> int {
    a1_at((p + 0) % 236) + 3 * (a1_at((p + 1) % 236) + 3 * (a1_at((p + 2) % 236) + 3 * (a1_at((p + 3) % 236) + 3 * (a1_at((p + 4) % 236)))))
}

#[verifier::rlimit(60)]
proof fn lemma_a1_table_0()
    ensures
        forall|i: int| 0 <= i < 64 ==> a1_window_table(#[trigger] a1_window_code(i)) == i,
{
    assert forall|i: int| 0 <= i < 64 implies a1_window_table(#[trigger] a1_window_code(i)) == i by {
        if i < 32 { if i < 16 { if i < 8 { if i < 4 { if i < 2 { if i < 1 { {} } else { {} } } else { if i < 3 { {} } else { {} } } } else { if i < 6 { if i < 5 { {} } else { {} } } else { if i < 7 { {} } else { {} } } } } else { if i < 12 { if i < 10 { if i < 9 { {} } else { {} } } else { if i < 11 { {} } else { {} } } } else { if i < 14 { if i < 13 { {} } else { {} } } else { if i < 15 { {} } else { {} } } } } } else { if i < 24 { if i < 20 { if i < 18 { if i < 17 { {} } else { {} } } else { if i < 19 { {} } else { {} } } } else { if i < 22 { if i < 21 { {} } else { {} } } else { if i < 23 { {} } else { {} } } } } else { if i < 28 { if i < 26 { if i < 25 { {} } else { {} } } else { if i < 27 { {} } else { {} } } } else { if i < 30 { if i < 29 { {} } else { {} } } else { if i < 31 { {} } else { {} } } } } } } else { if i < 48 { if i < 40 { if i < 36 { if i < 34 { if i < 33 { {} } else { {} } } else { if i < 35 { {} } else { {} } } } else { if i < 38 { if i < 37 { {} } else { {} } } else { if i < 39 { {} } else { {} } } } } else { if i < 44 { if i < 42 { if i < 41 { {} } else { {} } } else { if i < 43 { {} } else { {} } } } else { if i < 46 { if i < 45 { {} } else { {} } } else { if i < 47 { {} } else { {} } } } } } else { if i < 56 { if i < 52 { if i < 50 { if i < 49 { {} } else { {} } } else { if i < 51 { {} } else { {} } } } else { if i < 54 { if i < 53 { {} } else { {} } } else { if i < 55 { {} } else { {} } } } } else { if i < 60 { if i < 58 { if i < 57 { {} } else { {} } } else { if i < 59 { {} } else { {} } } } else { if i < 62 { if i < 61 { {} } else { {} } } else { if i < 63 { {} } else { {} } } } } } }
    }
}

#[verifier::rlimit(60)]
proof fn lemma_a1_table_64()
    ensures
        forall|i: int| 64 <= i < 128 ==> a1_window_table(#[trigger] a1_window_code(i)) == i,
{
    assert forall|i: int| 64 <= i < 128 implies a1_window_table(#[trigger] a1_window_code(i)) == i by {
        if i < 96 { if i < 80 { if i < 72 { if i < 68 { if i < 66 { if i < 65 { {} } else { {} } } else { if i < 67 { {} } else { {} } } } else { if i < 70 { if i < 69 { {} } else { {} } } else { if i < 71 { {} } else { {} } } } } else { if i < 76 { if i < 74 { if i < 73 { {} } else { {} } } else { if i < 75 { {} } else { {} } } } else { if i < 78 { if i < 77 { {} } else { {} } } else { if i < 79 { {} } else { {} } } } } } else { if i < 88 { if i < 84 { if i < 82 { if i < 81 { {} } else { {} } } else { if i < 83 { {} } else { {} } } } else { if i < 86 { if i < 85 { {} } else { {} } } else { if i < 87 { {} } else { {} } } } } else { if i < 92 { if i < 90 { if i < 89 { {} } else { {} } } else { if i < 91 { {} } else { {} } } } else { if i < 94 { if i < 93 { {} } else { {} } } else { if i < 95 { {} } else { {} } } } } } } else { if i < 112 { if i < 104 { if i < 100 { if i < 98 { if i < 97 { {} } else { {} } } else { if i < 99 { {} } else { {} } } } else { if i < 102 { if i < 101 { {} } else { {} } } else { if i < 103 { {} } else { {} } } } } else { if i < 108 { if i < 106 { if i < 105 { {} } else { {} } } else { if i < 107 { {} } else { {} } } } else { if i < 110 { if i < 109 { {} } else { {} } } else { if i < 111 { {} } else { {} } } } } } else { if i < 120 { if i < 116 { if i < 114 { if i < 113 { {} } else { {} } } else { if i < 115 { {} } else { {} } } } else { if i < 118 { if i < 117 { {} } else { {} } } else { if i < 119 { {} } else { {} } } } } else { if i < 124 { if i < 122 { if i < 121 { {} } else { {} } } else { if i < 123 { {} } else { {} } } } else { if i < 126 { if i < 125 { {} } else { {} } } else { if i < 127 { {} } else { {} } } } } } }
    }
}

#[verifier::rlimit(60)]
proof fn lemma_a1_table_128()
    ensures
        forall|i: int| 128 <= i < 192 ==> a1_window_table(#[trigger] a1_window_code(i)) == i,
{
    assert forall|i: int| 128 <= i < 192 implies a1_window_table(#[trigger] a1_window_code(i)) == i by {
        if i < 160 { if i < 144 { if i < 136 { if i < 132 { if i < 130 { if i < 129 { {} } else { {} } } else { if i < 131 { {} } else { {} } } } else { if i < 134 { if i < 133 { {} } else { {} } } else { if i < 135 { {} } else { {} } } } } else { if i < 140 { if i < 138 { if i < 137 { {} } else { {} } } else { if i < 139 { {} } else { {} } } } else { if i < 142 { if i < 141 { {} } else { {} } } else { if i < 143 { {} } else { {} } } } } } else { if i < 152 { if i < 148 { if i < 146 { if i < 145 { {} } else { {} } } else { if i < 147 { {} } else { {} } } } else { if i < 150 { if i < 149 { {} } else { {} } } else { if i < 151 { {} } else { {} } } } } else { if i < 156 { if i < 154 { if i < 153 { {} } else { {} } } else { if i < 155 { {} } else { {} } } } else { if i < 158 { if i < 157 { {} } else { {} } } else { if i < 159 { {} } else { {} } } } } } } else { if i < 176 { if i < 168 { if i < 164 { if i < 162 { if i < 161 { {} } else { {} } } else { if i < 163 { {} } else { {} } } } else { if i < 166 { if i < 165 { {} } else { {} } } else { if i < 167 { {} } else { {} } } } } else { if i < 172 { if i < 170 { if i < 169 { {} } else { {} } } else { if i < 171 { {} } else { {} } } } else { if i < 174 { if i < 173 { {} } else { {} } } else { if i < 175 { {} } else { {} } } } } } else { if i < 184 { if i < 180 { if i < 178 { if i < 177 { {} } else { {} } } else { if i < 179 { {} } else { {} } } } else { if i < 182 { if i < 181 { {} } else { {} } } else { if i < 183 { {} } else { {} } } } } else { if i < 188 { if i < 186 { if i < 185 { {} } else { {} } } else { if i < 187 { {} } else { {} } } } else { if i < 190 { if i < 189 { {} } else { {} } } else { if i < 191 { {} } else { {} } } } } } }
    }
}

#[verifier::rlimit(60)]
proof fn lemma_a1_table_192()
    ensures
        forall|i: int| 192 <= i < 236 ==> a1_window_table(#[trigger] a1_window_code(i)) == i,
{
    assert forall|i: int| 192 <= i < 236 implies a1_window_table(#[trigger] a1_window_code(i)) == i by {
        if i < 214 { if i < 203 { if i < 197 { if i < 194 { if i < 193 { {} } else { {} } } else { if i < 195 { {} } else { if i < 196 { {} } else { {} } } } } else { if i < 200 { if i < 198 { {} } else { if i < 199 { {} } else { {} } } } else { if i < 201 { {} } else { if i < 202 { {} } else { {} } } } } } else { if i < 208 { if i < 205 { if i < 204 { {} } else { {} } } else { if i < 206 { {} } else { if i < 207 { {} } else { {} } } } } else { if i < 211 { if i < 209 { {} } else { if i < 210 { {} } else { {} } } } else { if i < 212 { {} } else { if i < 213 { {} } else { {} } } } } } } else { if i < 225 { if i < 219 { if i < 216 { if i < 215 { {} } else { {} } } else { if i < 217 { {} } else { if i < 218 { {} } else { {} } } } } else { if i < 222 { if i < 220 { {} } else { if i < 221 { {} } else { {} } } } else { if i < 223 { {} } else { if i < 224 { {} } else { {} } } } } } else { if i < 230 { if i < 227 { if i < 226 { {} } else { {} } } else { if i < 228 { {} } else { if i < 229 { {} } else { {} } } } } else { if i < 233 { if i < 231 { {} } else { if i < 232 { {} } else { {} } } } else { if i < 234 { {} } else { if i < 235 { {} } else { {} } } } } } }
    }
}

proof fn lemma_a1_table()
    ensures
        forall|i: int| 0 <= i < 236 ==> a1_window_table(#[trigger] a1_window_code(i)) == i,
{
    lemma_a1_table_0();
    lemma_a1_table_64();
    lemma_a1_table_128();
    lemma_a1_table_192();
}

/// Two cyclic windows of a1 with the same symbols start at the same position.
pub proof fn lemma_a1_window_unique(p: int, q: int)
    requires
        0 <= p < 236,
        0 <= q < 236,
        forall|j: int| 0 <= j < 5 ==> #[trigger] a1_at((p + j) % 236) == a1_at((q + j) % 236),
    ensures
        p == q,
{
    assert(a1_at((p + 0) % 236) == a1_at((q + 0) % 236));
    assert(a1_at((p + 1) % 236) == a1_at((q + 1) % 236));
    assert(a1_at((p + 2) % 236) == a1_at((q + 2) % 236));
    assert(a1_at((p + 3) % 236) == a1_at((q + 3) % 236));
    assert(a1_at((p + 4) % 236) == a1_at((q + 4) % 236));
    lemma_a1_table();
    assert(a1_window_code(p) == a1_window_code(q));
}

/// Every symbol of a1 lies in its alphabet.
pub proof fn lemma_a1_range(i: int)
    ensures
        0 <= a1_at(i) < 3,
{
}

/// Symbol `i` of the first secondary sequence (ternary, length 236).
pub fn a1_value(i: usize) -> (v: i8)
    ensures
        v == a1_at(i as int),
{
    if i < 118 { if i < 59 { if i < 29 { if i < 14 { if i < 7 { if i < 3 { 0i8 } else { if i < 5 { 0i8 } else { if i < 6 { 1i8 } else { 0i8 } } } } else { if i < 10 { 0i8 } else { if i < 12 { if i < 11 { 2i8 } else { 0i8 } } else { if i < 13 { 1i8 } else { 0i8 } } } } } else { if i < 21 { if i < 17 { if i < 15 { 0i8 } else { if i < 16 { 1i8 } else { 0i8 } } } else { if i < 19 { if i < 18 { 1i8 } else { 0i8 } } else { if i < 20 { 0i8 } else { 2i8 } } } } else { if i < 25 { if i < 23 { 0i8 } else { if i < 24 { 0i8 } else { 1i8 } } } else { if i < 27 { if i < 26 { 1i8 } else { 0i8 } } else { 0i8 } } } } } else { if i < 44 { if i < 36 { if i < 32 { if i < 30 { 1i8 } else { if i < 31 { 2i8 } else { 0i8 } } } else { if i < 34 { if i < 33 { 0i8 } else { 1i8 } } else { if i < 35 { 0i8 } else { 2i8 } } } } else { if i < 40 { if i < 38 { 0i8 } else { if i < 39 { 2i8 } else { 0i8 } } } else { if i < 42 { if i < 41 { 2i8 } else { 0i8 } } else { 1i8 } } } } else { if i < 51 { if i < 47 { if i < 45 { 0i8 } else { if i < 46 { 1i8 } else { 0i8 } } } else { if i < 49 { 1i8 } else { if i < 50 { 0i8 } else { 2i8 } } } } else { if i < 55 { if i < 53 { if i < 52 { 0i8 } else { 1i8 } } else { if i < 54 { 2i8 } else { 0i8 } } } else { if i < 57 { if i < 56 { 1i8 } else { 0i8 } } else { if i < 58 { 1i8 } else { 2i8 } } } } } } } else { if i < 88 { if i < 73 { if i < 66 { if i < 62 { if i < 60 { 0i8 } else { if i < 61 { 2i8 } else { 1i8 } } } else { if i < 64 { 0i8 } else { 1i8 } } } else { if i < 69 { if i < 67 { 1i8 } else { if i < 68 { 0i8 } else { 1i8 } } } else { if i < 71 { 1i8 } else { if i < 72 { 1i8 } else { 0i8 } } } } } else { if i < 80 { if i < 76 { if i < 74 { 2i8 } else { if i < 75 { 1i8 } else { 0i8 } } } else { if i < 78 { if i < 77 { 1i8 } else { 0i8 } } else { if i < 79 { 2i8 } else { 1i8 } } } } else { if i < 84 { if i < 82 { if i < 81 { 1i8 } else { 0i8 } } else { if i < 83 { 0i8 } else { 1i8 } } } else { if i < 86 { if i < 85 { 2i8 } else { 1i8 } } else { if i < 87 { 0i8 } else { 1i8 } } } } } } else { if i < 103 { if i < 95 { if i < 91 { if i < 89 { 1i8 } else { if i < 90 { 2i8 } else { 0i8 } } } else { if i < 93 { 0i8 } else { if i < 94 { 2i8 } else { 1i8 } } } } else { if i < 99 { if i < 97 { if i < 96 { 0i8 } else { 2i8 } } else { if i < 98 { 0i8 } else { 2i8 } } } else { if i < 101 { 1i8 } else { if i < 102 { 1i8 } else { 0i8 } } } } } else { if i < 110 { if i < 106 { if i < 104 { 0i8 } else { if i < 105 { 2i8 } else { 1i8 } } } else { if i < 108 { if i < 107 { 2i8 } else { 0i8 } } else { 1i8 } } } else { if i < 114 { if i < 112 { if i < 111 { 1i8 } else { 2i8 } } else { if i < 113 { 0i8 } else { 2i8 } } } else { if i < 116 { 0i8 } else { 1i8 } } } } } } } else { if i < 177 { if i < 147 { if i < 132 { if i < 125 { if i < 121 { if i < 119 { 2i8 } else { if i < 120 { 1i8 } else { 0i8 } } } else { if i < 123 { 0i8 } else { 2i8 } } } else { if i < 128 { if i < 126 { 0i8 } else { if i < 127 { 1i8 } else { 0i8 } } } else { if i < 130 { 2i8 } else { 0i8 } } } } else { if i < 139 { if i < 135 { if i < 133 { 1i8 } else { 2i8 } } else { if i < 137 { if i < 136 { 0i8 } else { 2i8 } } else { if i < 138 { 0i8 } else { 2i8 } } } } else { if i < 143 { if i < 141 { if i < 140 { 2i8 } else { 1i8 } } else { if i < 142 { 0i8 } else { 1i8 } } } else { if i < 145 { if i < 144 { 2i8 } else { 1i8 } } else { if i < 146 { 2i8 } else { 1i8 } } } } } } else { if i < 162 { if i < 154 { if i < 150 { if i < 148 { 0i8 } else { if i < 149 { 2i8 } else { 1i8 } } } else { if i < 152 { if i < 151 { 2i8 } else { 1i8 } } else { if i < 153 { 1i8 } else { 0i8 } } } } else { if i < 158 { if i < 156 { 2i8 } else { if i < 157 { 1i8 } else { 2i8 } } } else { if i < 160 { if i < 159 { 1i8 } else { 2i8 } } else { if i < 161 { 0i8 } else { 2i8 } } } } } else { if i < 169 { if i < 165 { if i < 163 { 2i8 } else { if i < 164 { 0i8 } else { 2i8 } } } else { if i < 167 { 2i8 } else { if i < 168 { 0i8 } else { 1i8 } } } } else { if i < 173 { if i < 171 { if i < 170 { 1i8 } else { 2i8 } } else { if i < 172 { 2i8 } else { 1i8 } } } else { if i < 175 { if i < 174 { 1i8 } else { 0i8 } } else { if i < 176 { 1i8 } else { 2i8 } } } } } } } else { if i < 206 { if i < 191 { if i < 184 { if i < 180 { 2i8 } else { if i < 182 { if i < 181 { 1i8 } else { 2i8 } } else { 0i8 } } } else { if i < 187 { if i < 185 { 2i8 } else { if i < 186 { 2i8 } else { 1i8 } } } else { if i < 189 { if i < 188 { 1i8 } else { 2i8 } } else { if i < 190 { 1i8 } else { 2i8 } } } } } else { if i < 198 { if i < 194 { if i < 192 { 2i8 } else { if i < 193 { 1i8 } else { 0i8 } } } else { 2i8 } } else { if i < 202 { if i < 200 { if i < 199 { 2i8 } else { 0i8 } } else { if i < 201 { 2i8 } else { 1i8 } } } else { if i < 204 { 2i8 } else { if i < 205 { 2i8 } else { 1i8 } } } } } } else { if i < 221 { if i < 213 { if i < 209 { if i < 207 { 1i8 } else { if i < 208 { 1i8 } else { 2i8 } } } else { if i < 211 { 1i8 } else { if i < 212 { 2i8 } else { 0i8 } } } } else { if i < 217 { if i < 215 { if i < 214 { 1i8 } else { 2i8 } } else { if i < 216 { 2i8 } else { 1i8 } } } else { if i < 219 { 2i8 } else { if i < 220 { 0i8 } else { 1i8 } } } } } else { if i < 228 { if i < 224 { if i < 222 { 2i8 } else { 1i8 } } else { if i < 226 { 1i8 } else { 2i8 } } } else { if i < 232 { if i < 230 { if i < 229 { 2i8 } else { 0i8 } } else { if i < 231 { 0i8 } else { 2i8 } } } else { if i < 234 { 1i8 } else { 2i8 } } } } } } }
}

/// Position at which each cyclic window of a2 starts, indexed by the window read as a base-3 number.
spec fn a2_window_table(c: int) -> int {
    if c < 121 { if c < 60 { if c < 30 { if c < 15 { if c < 7 { if c < 3 { if c < 1 { -1 } else { if c < 2 { 46 } else { 228 } } } else { if c < 5 { if c < 4 { 26 } else { 45 } } else { if c < 6 { 72 } else { 108 } } } } else { if c < 11 { if c < 9 { if c < 8 { 227 } else { 187 } } else { if c < 10 { 29 } else { -1 } } } else { if c < 13 { if c < 12 { 25 } else { 220 } } else { if c < 14 { 44 } else { 54 } } } } } else { if c < 22 { if c < 18 { if c < 16 { -1 } else { if c < 17 { 71 } else { 117 } } } else { if c < 20 { if c < 19 { 107 } else { 104 } } else { if c < 21 { 152 } else { 232 } } } } else { if c < 26 { if c < 24 { if c < 23 { 90 } else { 226 } } else { if c < 25 { 76 } else { 213 } } } else { if c < 28 { if c < 27 { 186 } else { 28 } } else { if c < 29 { -1 } else { 154 } } } } } } else { if c < 45 { if c < 37 { if c < 33 { if c < 31 { -1 } else { if c < 32 { 97 } else { 125 } } } else { if c < 35 { if c < 34 { 208 } else { 204 } } else { if c < 36 { 24 } else { 216 } } } } else { if c < 41 { if c < 39 { if c < 38 { 219 } else { 142 } } else { if c < 40 { 101 } else { 43 } } } else { if c < 43 { if c < 42 { 95 } else { 146 } } else { if c < 44 { 62 } else { 53 } } } } } else { if c < 52 { if c < 48 { if c < 46 { -1 } else { if c < 47 { 157 } else { 179 } } } else { if c < 50 { if c < 49 { 70 } else { 123 } } else { if c < 51 { 17 } else { 66 } } } } else { if c < 56 { if c < 54 { if c < 53 { 4 } else { 116 } } else { if c < 55 { 110 } else { 31 } } } else { if c < 58 { if c < 57 { 106 } else { 206 } } else { if c < 59 { 103 } else { 19 } } } } } } } else { if c < 90 { if c < 75 { if c < 67 { if c < 63 { if c < 61 { 198 } else { if c < 62 { 151 } else { 196 } } } else { if c < 65 { if c < 64 { 231 } else { 149 } } else { if c < 66 { 38 } else { 202 } } } } else { if c < 71 { if c < 69 { if c < 68 { 89 } else { 176 } } else { if c < 70 { 35 } else { 225 } } } else { if c < 73 { if c < 72 { 163 } else { 75 } } else { if c < 74 { 128 } else { 22 } } } } } else { if c < 82 { if c < 78 { if c < 76 { 212 } else { if c < 77 { 139 } else { 194 } } } else { if c < 80 { if c < 79 { 80 } else { 185 } } else { if c < 81 { 171 } else { 229 } } } } else { if c < 86 { if c < 84 { if c < 83 { 27 } else { 188 } } else { if c < 85 { -1 } else { 221 } } } else { if c < 88 { if c < 87 { 118 } else { 153 } } else { if c < 89 { 0 } else { 214 } } } } } } else { if c < 105 { if c < 97 { if c < 93 { if c < 91 { -1 } else { if c < 92 { 98 } else { 209 } } } else { if c < 95 { if c < 94 { 217 } else { 96 } } else { if c < 96 { 147 } else { 180 } } } } else { if c < 101 { if c < 99 { if c < 98 { 124 } else { 67 } } else { if c < 100 { 111 } else { 207 } } } else { if c < 103 { if c < 102 { 199 } else { 39 } } else { if c < 104 { 203 } else { 36 } } } } } else { if c < 113 { if c < 109 { if c < 107 { if c < 106 { 23 } else { 140 } } else { if c < 108 { 81 } else { 189 } } } else { if c < 111 { if c < 110 { 119 } else { 215 } } else { if c < 112 { 99 } else { 218 } } } } else { if c < 117 { if c < 115 { if c < 114 { 181 } else { 200 } } else { if c < 116 { 40 } else { 141 } } } else { if c < 119 { if c < 118 { 120 } else { 100 } } else { if c < 120 { 41 } else { 42 } } } } } } } } else { if c < 182 { if c < 151 { if c < 136 { if c < 128 { if c < 124 { if c < 122 { 87 } else { if c < 123 { 86 } else { 94 } } } else { if c < 126 { if c < 125 { 85 } else { 136 } } else { if c < 127 { 93 } else { 145 } } } } else { if c < 132 { if c < 130 { if c < 129 { 174 } else { 84 } } else { if c < 131 { 61 } else { 9 } } } else { if c < 134 { if c < 133 { 58 } else { 52 } } else { if c < 135 { 135 } else { 48 } } } } } else { if c < 143 { if c < 139 { if c < 137 { -1 } else { if c < 138 { 92 } else { 156 } } } else { if c < 141 { if c < 140 { 144 } else { 6 } } else { if c < 142 { 33 } else { 178 } } } } else { if c < 147 { if c < 145 { if c < 144 { 173 } else { 223 } } else { if c < 146 { 69 } else { 83 } } } else { if c < 149 { if c < 148 { 191 } else { 122 } } else { if c < 150 { 60 } else { 8 } } } } } } else { if c < 166 { if c < 158 { if c < 154 { if c < 152 { 16 } else { if c < 153 { 14 } else { 57 } } } else { if c < 156 { if c < 155 { 65 } else { 166 } } else { if c < 157 { 3 } else { 12 } } } } else { if c < 162 { if c < 160 { if c < 159 { 51 } else { 161 } } else { if c < 161 { 115 } else { 134 } } } else { if c < 164 { if c < 163 { 47 } else { 73 } } else { if c < 165 { 109 } else { 30 } } } } } else { if c < 174 { if c < 170 { if c < 168 { if c < 167 { 55 } else { -1 } } else { if c < 169 { 105 } else { 91 } } } else { if c < 172 { if c < 171 { 77 } else { 155 } } else { if c < 173 { 126 } else { 205 } } } } else { if c < 178 { if c < 176 { if c < 175 { 143 } else { 102 } } else { if c < 177 { 63 } else { 158 } } } else { if c < 180 { if c < 179 { 18 } else { 5 } } else { if c < 181 { 32 } else { 20 } } } } } } } else { if c < 212 { if c < 197 { if c < 189 { if c < 185 { if c < 183 { 197 } else { if c < 184 { 150 } else { 177 } } } else { if c < 187 { if c < 186 { 164 } else { 129 } } else { if c < 188 { 195 } else { 172 } } } } else { if c < 193 { if c < 191 { if c < 190 { 230 } else { 222 } } else { if c < 192 { 1 } else { 210 } } } else { if c < 195 { if c < 194 { 148 } else { 68 } } else { if c < 196 { 112 } else { 37 } } } } } else { if c < 204 { if c < 200 { if c < 198 { 82 } else { if c < 199 { 190 } else { 182 } } } else { if c < 202 { if c < 201 { 201 } else { 121 } } else { if c < 203 { 88 } else { 137 } } } } else { if c < 208 { if c < 206 { if c < 205 { 175 } else { 10 } } else { if c < 207 { 59 } else { 49 } } } else { if c < 210 { if c < 209 { 7 } else { 34 } } else { if c < 211 { 224 } else { 192 } } } } } } else { if c < 227 { if c < 219 { if c < 215 { if c < 213 { 15 } else { if c < 214 { 167 } else { 13 } } } else { if c < 217 { if c < 216 { 162 } else { 74 } } else { if c < 218 { 56 } else { 78 } } } } else { if c < 223 { if c < 221 { if c < 220 { 127 } else { 64 } } else { if c < 222 { 159 } else { 21 } } } else { if c < 225 { if c < 224 { 165 } else { 130 } } else { if c < 226 { 2 } else { 211 } } } } } else { if c < 235 { if c < 231 { if c < 229 { if c < 228 { 113 } else { 183 } } else { if c < 230 { 138 } else { 11 } } } else { if c < 233 { if c < 232 { 50 } else { 193 } } else { if c < 234 { 168 } else { 79 } } } } else { if c < 239 { if c < 237 { if c < 236 { 160 } else { 131 } } else { if c < 238 { 114 } else { 184 } } } else { if c < 241 { if c < 240 { 169 } else { 132 } } else { if c < 242 { 170 } else { 133 } } } } } } } }
}

/// The cyclic window of a2 that starts at `p`, read as a base-3 number.
spec fn a2_window_code(p: int) -> int {
    a2_at((p + 0) % 233) + 3 * (a2_at((p + 1) % 233) + 3 * (a2_at((p + 2) % 233) + 3 * (a2_at((p + 3) % 233) + 3 * (a2_at((p + 4) % 233)))))
}

#[verifier::rlimit(60)]
proof fn lemma_a2_table_0()
    ensures
        forall|i: int| 0 <= i < 64 ==> a2_window_table(#[trigger] a2_window_code(i)) == i,
{
    assert forall|i: int| 0 <= i < 64 implies a2_window_table(#[trigger] a2_window_code(i)) == i by {
        if i < 32 { if i < 16 { if i < 8 { if i < 4 { if i < 2 { if i < 1 { {} } else { {} } } else { if i < 3 { {} } else { {} } } } else { if i < 6 { if i < 5 { {} } else { {} } } else { if i < 7 { {} } else { {} } } } } else { if i < 12 { if i < 10 { if i < 9 { {} } else { {} } } else { if i < 11 { {} } else { {} } } } else { if i < 14 { if i < 13 { {} } else { {} } } else { if i < 15 { {} } else { {} } } } } } else { if i < 24 { if i < 20 { if i < 18 { if i < 17 { {} } else { {} } } else { if i < 19 { {} } else { {} } } } else { if i < 22 { if i < 21 { {} } else { {} } } else { if i < 23 { {} } else { {} } } } } else { if i < 28 { if i < 26 { if i < 25 { {} } else { {} } } else { if i < 27 { {} } else { {} } } } else { if i < 30 { if i < 29 { {} } else { {} } } else { if i < 31 { {} } else { {} } } } } } } else { if i < 48 { if i < 40 { if i < 36 { if i < 34 { if i < 33 { {} } else { {} } } else { if i < 35 { {} } else { {} } } } else { if i < 38 { if i < 37 { {} } else { {} } } else { if i < 39 { {} } else { {} } } } } else { if i < 44 { if i < 42 { if i < 41 { {} } else { {} } } else { if i < 43 { {} } else { {} } } } else { if i < 46 { if i < 45 { {} } else { {} } } else { if i < 47 { {} } else { {} } } } } } else { if i < 56 { if i < 52 { if i < 50 { if i < 49 { {} } else { {} } } else { if i < 51 { {} } else { {} } } } else { if i < 54 { if i < 53 { {} } else { {} } } else { if i < 55 { {} } else { {} } } } } else { if i < 60 { if i < 58 { if i < 57 { {} } else { {} } } else { if i < 59 { {} } else { {} } } } else { if i < 62 { if i < 61 { {} } else { {} } } else { if i < 63 { {} } else { {} } } } } } }
    }
}

#[verifier::rlimit(60)]
proof fn lemma_a2_table_64()
    ensures
        forall|i: int| 64 <= i < 128 ==> a2_window_table(#[trigger] a2_window_code(i)) == i,
{
    assert forall|i: int| 64 <= i < 128 implies a2_window_table(#[trigger] a2_window_code(i)) == i by {
        if i < 96 { if i < 80 { if i < 72 { if i < 68 { if i < 66 { if i < 65 { {} } else { {} } } else { if i < 67 { {} } else { {} } } } else { if i < 70 { if i < 69 { {} } else { {} } } else { if i < 71 { {} } else { {} } } } } else { if i < 76 { if i < 74 { if i < 73 { {} } else { {} } } else { if i < 75 { {} } else { {} } } } else { if i < 78 { if i < 77 { {} } else { {} } } else { if i < 79 { {} } else { {} } } } } } else { if i < 88 { if i < 84 { if i < 82 { if i < 81 { {} } else { {} } } else { if i < 83 { {} } else { {} } } } else { if i < 86 { if i < 85 { {} } else { {} } } else { if i < 87 { {} } else { {} } } } } else { if i < 92 { if i < 90 { if i < 89 { {} } else { {} } } else { if i < 91 { {} } else { {} } } } else { if i < 94 { if i < 93 { {} } else { {} } } else { if i < 95 { {} } else { {} } } } } } } else { if i < 112 { if i < 104 { if i < 100 { if i < 98 { if i < 97 { {} } else { {} } } else { if i < 99 { {} } else { {} } } } else { if i < 102 { if i < 101 { {} } else { {} } } else { if i < 103 { {} } else { {} } } } } else { if i < 108 { if i < 106 { if i < 105 { {} } else { {} } } else { if i < 107 { {} } else { {} } } } else { if i < 110 { if i < 109 { {} } else { {} } } else { if i < 111 { {} } else { {} } } } } } else { if i < 120 { if i < 116 { if i < 114 { if i < 113 { {} } else { {} } } else { if i < 115 { {} } else { {} } } } else { if i < 118 { if i < 117 { {} } else { {} } } else { if i < 119 { {} } else { {} } } } } else { if i < 124 { if i < 122 { if i < 121 { {} } else { {} } } else { if i < 123 { {} } else { {} } } } else { if i < 126 { if i < 125 { {} } else { {} } } else { if i < 127 { {} } else { {} } } } } } }
    }
}

#[verifier::rlimit(60)]
proof fn lemma_a2_table_128()
    ensures
        forall|i: int| 128 <= i < 192 ==> a2_window_table(#[trigger] a2_window_code(i)) == i,
{
    assert forall|i: int| 128 <= i < 192 implies a2_window_table(#[trigger] a2_window_code(i)) == i by {
        if i < 160 { if i < 144 { if i < 136 { if i < 132 { if i < 130 { if i < 129 { {} } else { {} } } else { if i < 131 { {} } else { {} } } } else { if i < 134 { if i < 133 { {} } else { {} } } else { if i < 135 { {} } else { {} } } } } else { if i < 140 { if i < 138 { if i < 137 { {} } else { {} } } else { if i < 139 { {} } else { {} } } } else { if i < 142 { if i < 141 { {} } else { {} } } else { if i < 143 { {} } else { {} } } } } } else { if i < 152 { if i < 148 { if i < 146 { if i < 145 { {} } else { {} } } else { if i < 147 { {} } else { {} } } } else { if i < 150 { if i < 149 { {} } else { {} } } else { if i < 151 { {} } else { {} } } } } else { if i < 156 { if i < 154 { if i < 153 { {} } else { {} } } else { if i < 155 { {} } else { {} } } } else { if i < 158 { if i < 157 { {} } else { {} } } else { if i < 159 { {} } else { {} } } } } } } else { if i < 176 { if i < 168 { if i < 164 { if i < 162 { if i < 161 { {} } else { {} } } else { if i < 163 { {} } else { {} } } } else { if i < 166 { if i < 165 { {} } else { {} } } else { if i < 167 { {} } else { {} } } } } else { if i < 172 { if i < 170 { if i < 169 { {} } else { {} } } else { if i < 171 { {} } else { {} } } } else { if i < 174 { if i < 173 { {} } else { {} } } else { if i < 175 { {} } else { {} } } } } } else { if i < 184 { if i < 180 { if i < 178 { if i < 177 { {} } else { {} } } else { if i < 179 { {} } else { {} } } } else { if i < 182 { if i < 181 { {} } else { {} } } else { if i < 183 { {} } else { {} } } } } else { if i < 188 { if i < 186 { if i < 185 { {} } else { {} } } else { if i < 187 { {} } else { {} } } } else { if i < 190 { if i < 189 { {} } else { {} } } else { if i < 191 { {} } else { {} } } } } } }
    }
}

#[verifier::rlimit(60)]
proof fn lemma_a2_table_192()
    ensures
        forall|i: int| 192 <= i < 233 ==> a2_window_table(#[trigger] a2_window_code(i)) == i,
{
    assert forall|i: int| 192 <= i < 233 implies a2_window_table(#[trigger] a2_window_code(i)) == i by {
        if i < 212 { if i < 202 { if i < 197 { if i < 194 { if i < 193 { {} } else { {} } } else { if i < 195 { {} } else { if i < 196 { {} } else { {} } } } } else { if i < 199 { if i < 198 { {} } else { {} } } else { if i < 200 { {} } else { if i < 201 { {} } else { {} } } } } } else { if i < 207 { if i < 204 { if i < 203 { {} } else { {} } } else { if i < 205 { {} } else { if i < 206 { {} } else { {} } } } } else { if i < 209 { if i < 208 { {} } else { {} } } else { if i < 210 { {} } else { if i < 211 { {} } else { {} } } } } } } else { if i < 222 { if i < 217 { if i < 214 { if i < 213 { {} } else { {} } } else { if i < 215 { {} } else { if i < 216 { {} } else { {} } } } } else { if i < 219 { if i < 218 { {} } else { {} } } else { if i < 220 { {} } else { if i < 221 { {} } else { {} } } } } } else { if i < 227 { if i < 224 { if i < 223 { {} } else { {} } } else { if i < 225 { {} } else { if i < 226 { {} } else { {} } } } } else { if i < 230 { if i < 228 { {} } else { if i < 229 { {} } else { {} } } } else { if i < 231 { {} } else { if i < 232 { {} } else { {} } } } } } }
    }
}

proof fn lemma_a2_table()
    ensures
        forall|i: int| 0 <= i < 233 ==> a2_window_table(#[trigger] a2_window_code(i)) == i,
{
    lemma_a2_table_0();
    lemma_a2_table_64();
    lemma_a2_table_128();
    lemma_a2_table_192();
}

/// Two cyclic windows of a2 with the same symbols start at the same position.
pub proof fn lemma_a2_window_unique(p: int, q: int)
    requires
        0 <= p < 233,
        0 <= q < 233,
        forall|j: int| 0 <= j < 5 ==> #[trigger] a2_at((p + j) % 233) == a2_at((q + j) % 233),
    ensures
        p == q,
{
    assert(a2_at((p + 0) % 233) == a2_at((q + 0) % 233));
    assert(a2_at((p + 1) % 233) == a2_at((q + 1) % 233));
    assert(a2_at((p + 2) % 233) == a2_at((q + 2) % 233));
    assert(a2_at((p + 3) % 233) == a2_at((q + 3) % 233));
    assert(a2_at((p + 4) % 233) == a2_at((q + 4) % 233));
    lemma_a2_table();
    assert(a2_window_code(p) == a2_window_code(q));
}

/// Every symbol of a2 lies in its alphabet.
pub proof fn lemma_a2_range(i: int)
    ensures
        0 <= a2_at(i) < 3,
{
}

/// Symbol `i` of the second secondary sequence (ternary, length 233).
pub fn a2_value(i: usize) -> (v: i8)
    ensures
        v == a2_at(i as int),
{
    if i < 116 { if i < 58 { if i < 29 { if i < 14 { if i < 7 { if i < 3 { if i < 1 { 1i8 } else { if i < 2 { 2i8 } else { 0i8 } } } else { if i < 5 { if i < 4 { 0i8 } else { 1i8 } } else { 2i8 } } } else { if i < 10 { if i < 8 { 1i8 } else { if i < 9 { 0i8 } else { 2i8 } } } else { if i < 12 { if i < 11 { 1i8 } else { 2i8 } } else { 1i8 } } } } else { if i < 21 { if i < 17 { if i < 15 { 2i8 } else { if i < 16 { 2i8 } else { 1i8 } } } else { if i < 19 { if i < 18 { 2i8 } else { 1i8 } } else { if i < 20 { 2i8 } else { 1i8 } } } } else { if i < 25 { if i < 23 { if i < 22 { 0i8 } else { 2i8 } } else { if i < 24 { 0i8 } else { 2i8 } } } else { if i < 27 { if i < 26 { 2i8 } else { 0i8 } } else { if i < 28 { 1i8 } else { 0i8 } } } } } } else { if i < 43 { if i < 36 { if i < 32 { if i < 30 { 0i8 } else { if i < 31 { 0i8 } else { 1i8 } } } else { if i < 34 { 0i8 } else { if i < 35 { 2i8 } else { 0i8 } } } } else { if i < 39 { if i < 37 { 2i8 } else { if i < 38 { 1i8 } else { 2i8 } } } else { if i < 41 { if i < 40 { 0i8 } else { 1i8 } } else { if i < 42 { 2i8 } else { 0i8 } } } } } else { if i < 50 { if i < 46 { 1i8 } else { if i < 48 { if i < 47 { 1i8 } else { 0i8 } } else { 0i8 } } } else { if i < 54 { if i < 52 { if i < 51 { 0i8 } else { 2i8 } } else { if i < 53 { 1i8 } else { 2i8 } } } else { if i < 56 { if i < 55 { 2i8 } else { 1i8 } } else { if i < 57 { 1i8 } else { 0i8 } } } } } } } else { if i < 87 { if i < 72 { if i < 65 { if i < 61 { if i < 59 { 0i8 } else { 2i8 } } else { if i < 63 { 1i8 } else { if i < 64 { 2i8 } else { 1i8 } } } } else { if i < 68 { if i < 66 { 1i8 } else { if i < 67 { 0i8 } else { 2i8 } } } else { if i < 70 { if i < 69 { 2i8 } else { 1i8 } } else { if i < 71 { 0i8 } else { 1i8 } } } } } else { if i < 79 { if i < 75 { if i < 73 { 2i8 } else { if i < 74 { 1i8 } else { 0i8 } } } else { if i < 77 { 0i8 } else { 2i8 } } } else { if i < 83 { if i < 81 { 0i8 } else { 2i8 } } else { if i < 85 { if i < 84 { 2i8 } else { 0i8 } } else { if i < 86 { 1i8 } else { 2i8 } } } } } } else { if i < 101 { if i < 94 { if i < 90 { 1i8 } else { if i < 92 { 1i8 } else { if i < 93 { 2i8 } else { 0i8 } } } } else { if i < 97 { if i < 95 { 0i8 } else { if i < 96 { 2i8 } else { 1i8 } } } else { if i < 99 { 1i8 } else { if i < 100 { 0i8 } else { 1i8 } } } } } else { if i < 108 { if i < 104 { if i < 102 { 0i8 } else { 1i8 } } else { if i < 106 { if i < 105 { 1i8 } else { 0i8 } } else { if i < 107 { 2i8 } else { 0i8 } } } } else { if i < 112 { if i < 110 { if i < 109 { 0i8 } else { 2i8 } } else { 0i8 } } else { if i < 114 { if i < 113 { 0i8 } else { 2i8 } } else { if i < 115 { 0i8 } else { 1i8 } } } } } } } } else { if i < 174 { if i < 145 { if i < 130 { if i < 123 { if i < 119 { 2i8 } else { if i < 121 { if i < 120 { 1i8 } else { 0i8 } } else { if i < 122 { 0i8 } else { 1i8 } } } } else { if i < 126 { if i < 124 { 1i8 } else { if i < 125 { 1i8 } else { 2i8 } } } else { if i < 128 { if i < 127 { 1i8 } else { 0i8 } } else { if i < 129 { 1i8 } else { 0i8 } } } } } else { if i < 137 { if i < 133 { if i < 131 { 2i8 } else { if i < 132 { 2i8 } else { 0i8 } } } else { 2i8 } } else { if i < 141 { if i < 139 { if i < 138 { 2i8 } else { 1i8 } } else { 1i8 } } else { if i < 143 { 2i8 } else { if i < 144 { 0i8 } else { 1i8 } } } } } } else { if i < 159 { if i < 152 { if i < 148 { if i < 146 { 1i8 } else { if i < 147 { 0i8 } else { 2i8 } } } else { if i < 150 { 1i8 } else { if i < 151 { 0i8 } else { 1i8 } } } } else { if i < 155 { if i < 153 { 2i8 } else { if i < 154 { 0i8 } else { 2i8 } } } else { if i < 157 { 0i8 } else { if i < 158 { 1i8 } else { 0i8 } } } } } else { if i < 166 { if i < 162 { if i < 160 { 2i8 } else { if i < 161 { 1i8 } else { 0i8 } } } else { if i < 164 { 2i8 } else { if i < 165 { 2i8 } else { 1i8 } } } } else { if i < 170 { if i < 168 { if i < 167 { 2i8 } else { 0i8 } } else { 2i8 } } else { if i < 172 { if i < 171 { 1i8 } else { 2i8 } } else { 2i8 } } } } } } else { if i < 203 { if i < 188 { if i < 181 { if i < 177 { if i < 175 { 2i8 } else { if i < 176 { 0i8 } else { 2i8 } } } else { if i < 179 { 1i8 } else { if i < 180 { 2i8 } else { 0i8 } } } } else { if i < 184 { if i < 182 { 2i8 } else { if i < 183 { 1i8 } else { 0i8 } } } else { if i < 186 { 1i8 } else { 2i8 } } } } else { if i < 195 { if i < 191 { if i < 189 { 2i8 } else { 0i8 } } else { if i < 193 { if i < 192 { 0i8 } else { 1i8 } } else { if i < 194 { 1i8 } else { 2i8 } } } } else { if i < 199 { if i < 197 { if i < 196 { 1i8 } else { 2i8 } } else { if i < 198 { 2i8 } else { 0i8 } } } else { if i < 201 { if i < 200 { 2i8 } else { 0i8 } } else { if i < 202 { 2i8 } else { 0i8 } } } } } } else { if i < 218 { if i < 210 { if i < 206 { if i < 204 { 1i8 } else { if i < 205 { 1i8 } else { 2i8 } } } else { if i < 208 { if i < 207 { 0i8 } else { 1i8 } } else { if i < 209 { 0i8 } else { 2i8 } } } } else { if i < 214 { if i < 212 { if i < 211 { 0i8 } else { 1i8 } } else { if i < 213 { 0i8 } else { 1i8 } } } else { if i < 216 { 2i8 } else { 0i8 } } } } else { if i < 225 { if i < 221 { if i < 219 { 1i8 } else { if i < 220 { 1i8 } else { 0i8 } } } else { if i < 223 { 1i8 } else { 0i8 } } } else { if i < 229 { if i < 227 { if i < 226 { 1i8 } else { 2i8 } } else { if i < 228 { 1i8 } else { 2i8 } } } else { 0i8 } } } } } }
}

/// Position at which each cyclic window of a3 starts, indexed by the window read as a base-2 number.
spec fn a3_window_table(c: int) -> int {
    if c < 16 { if c < 8 { if c < 4 { if c < 2 { if c < 1 { -1 } else { 26 } } else { if c < 3 { 25 } else { 16 } } } else { if c < 6 { if c < 5 { 19 } else { 24 } } else { if c < 7 { 30 } else { 15 } } } } else { if c < 12 { if c < 10 { if c < 9 { 18 } else { 21 } } else { if c < 11 { 23 } else { 8 } } } else { if c < 14 { if c < 13 { 29 } else { 6 } } else { if c < 15 { 3 } else { 14 } } } } } else { if c < 24 { if c < 20 { if c < 18 { if c < 17 { 27 } else { 17 } } else { if c < 19 { 20 } else { 0 } } } else { if c < 22 { if c < 21 { 22 } else { 9 } } else { if c < 23 { 7 } else { 4 } } } } else { if c < 28 { if c < 26 { if c < 25 { 28 } else { 1 } } else { if c < 27 { 10 } else { 5 } } } else { if c < 30 { if c < 29 { 2 } else { 11 } } else { if c < 31 { 12 } else { 13 } } } } }
}

/// The cyclic window of a3 that starts at `p`, read as a base-2 number.
spec fn a3_window_code(p: int) -> int {
    a3_at((p + 0) % 31) + 2 * (a3_at((p + 1) % 31) + 2 * (a3_at((p + 2) % 31) + 2 * (a3_at((p + 3) % 31) + 2 * (a3_at((p + 4) % 31)))))
}

#[verifier::rlimit(60)]
proof fn lemma_a3_table_0()
    ensures
        forall|i: int| 0 <= i < 31 ==> a3_window_table(#[trigger] a3_window_code(i)) == i,
{
    assert forall|i: int| 0 <= i < 31 implies a3_window_table(#[trigger] a3_window_code(i)) == i by {
        if i < 15 { if i < 7 { if i < 3 { if i < 1 { {} } else { if i < 2 { {} } else { {} } } } else { if i < 5 { if i < 4 { {} } else { {} } } else { if i < 6 { {} } else { {} } } } } else { if i < 11 { if i < 9 { if i < 8 { {} } else { {} } } else { if i < 10 { {} } else { {} } } } else { if i < 13 { if i < 12 { {} } else { {} } } else { if i < 14 { {} } else { {} } } } } } else { if i < 23 { if i < 19 { if i < 17 { if i < 16 { {} } else { {} } } else { if i < 18 { {} } else { {} } } } else { if i < 21 { if i < 20 { {} } else { {} } } else { if i < 22 { {} } else { {} } } } } else { if i < 27 { if i < 25 { if i < 24 { {} } else { {} } } else { if i < 26 { {} } else { {} } } } else { if i < 29 { if i < 28 { {} } else { {} } } else { if i < 30 { {} } else { {} } } } } }
    }
}

proof fn lemma_a3_table()
    ensures
        forall|i: int| 0 <= i < 31 ==> a3_window_table(#[trigger] a3_window_code(i)) == i,
{
    lemma_a3_table_0();
}

/// Two cyclic windows of a3 with the same symbols start at the same position.
pub proof fn lemma_a3_window_unique(p: int, q: int)
    requires
        0 <= p < 31,
        0 <= q < 31,
        forall|j: int| 0 <= j < 5 ==> #[trigger] a3_at((p + j) % 31) == a3_at((q + j) % 31),
    ensures
        p == q,
{
    assert(a3_at((p + 0) % 31) == a3_at((q + 0) % 31));
    assert(a3_at((p + 1) % 31) == a3_at((q + 1) % 31));
    assert(a3_at((p + 2) % 31) == a3_at((q + 2) % 31));
    assert(a3_at((p + 3) % 31) == a3_at((q + 3) % 31));
    assert(a3_at((p + 4) % 31) == a3_at((q + 4) % 31));
    lemma_a3_table();
    assert(a3_window_code(p) == a3_window_code(q));
}

/// Every symbol of a3 lies in its alphabet.
pub proof fn lemma_a3_range(i: int)
    ensures
        0 <= a3_at(i) < 2,
{
}

/// Symbol `i` of the third secondary sequence (binary, length 31).
pub fn a3_value(i: usize) -> (v: i8)
    ensures
        v == a3_at(i as int),
{
    if i < 15 { if i < 7 { if i < 3 { if i < 1 { 1i8 } else { if i < 2 { 1i8 } else { 0i8 } } } else { if i < 5 { if i < 4 { 0i8 } else { 1i8 } } else { 1i8 } } } else { if i < 11 { if i < 9 { if i < 8 { 0i8 } else { 1i8 } } else { if i < 10 { 1i8 } else { 0i8 } } } else { if i < 13 { if i < 12 { 1i8 } else { 0i8 } } else { 1i8 } } } } else { if i < 23 { if i < 19 { if i < 17 { 1i8 } else { if i < 18 { 1i8 } else { 0i8 } } } else { if i < 21 { 0i8 } else { if i < 22 { 1i8 } else { 0i8 } } } } else { if i < 27 { if i < 25 { if i < 24 { 0i8 } else { 1i8 } } else { if i < 26 { 0i8 } else { 1i8 } } } else { 0i8 } } }
}

/// Position at which each cyclic window of a4 starts, indexed by the window read as a base-3 number.
spec fn a4_window_table(c: int) -> int {
    if c < 121 { if c < 60 { if c < 30 { if c < 15 { if c < 7 { if c < 3 { if c < 1 { 236 } else { if c < 2 { 5 } else { 235 } } } else { if c < 5 { if c < 4 { 25 } else { 4 } } else { if c < 6 { 18 } else { 234 } } } } else { if c < 11 { if c < 9 { if c < 8 { 172 } else { 32 } } else { if c < 10 { 138 } else { 193 } } } else { if c < 13 { if c < 12 { 24 } else { 144 } } else { if c < 14 { 87 } else { 3 } } } } } else { if c < 22 { if c < 18 { if c < 16 { 228 } else { if c < 17 { 98 } else { 17 } } } else { if c < 20 { if c < 19 { 8 } else { 167 } } else { if c < 21 { 233 } else { 171 } } } } else { if c < 26 { if c < 24 { if c < 23 { 177 } else { 70 } } else { if c < 25 { 31 } else { 135 } } } else { if c < 28 { if c < 27 { 108 } else { 27 } } else { if c < 29 { 140 } else { 137 } } } } } } else { if c < 45 { if c < 37 { if c < 33 { if c < 31 { 202 } else { if c < 32 { 192 } else { 200 } } } else { if c < 35 { if c < 34 { 63 } else { 157 } } else { if c < 36 { 23 } else { 101 } } } } else { if c < 41 { if c < 39 { if c < 38 { 143 } else { 152 } } else { if c < 40 { 181 } else { 86 } } } else { if c < 43 { if c < 42 { 190 } else { 215 } } else { if c < 44 { 51 } else { 2 } } } } } else { if c < 52 { if c < 48 { if c < 46 { 35 } else { if c < 47 { 160 } else { 227 } } } else { if c < 50 { if c < 49 { 164 } else { 97 } } else { if c < 51 { 92 } else { 124 } } } } else { if c < 56 { if c < 54 { if c < 53 { 16 } else { 198 } } else { if c < 55 { 7 } else { 230 } } } else { if c < 58 { if c < 57 { 72 } else { 204 } } else { if c < 59 { 217 } else { 166 } } } } } } } else { if c < 90 { if c < 75 { if c < 67 { if c < 63 { if c < 61 { 232 } else { if c < 62 { 116 } else { 61 } } } else { if c < 65 { if c < 64 { 170 } else { 155 } } else { if c < 66 { 224 } else { 176 } } } } else { if c < 71 { if c < 69 { if c < 68 { 78 } else { 114 } } else { if c < 70 { 120 } else { 149 } } } else { if c < 73 { if c < 72 { 69 } else { 21 } } else { if c < 74 { 30 } else { 211 } } } } } else { if c < 82 { if c < 78 { if c < 76 { 221 } else { if c < 77 { 134 } else { 59 } } } else { if c < 80 { if c < 79 { 208 } else { 107 } } else { if c < 81 { 129 } else { 237 } } } } else { if c < 86 { if c < 84 { if c < 83 { 26 } else { 173 } } else { if c < 85 { 139 } else { 145 } } } else { if c < 88 { if c < 87 { 99 } else { 168 } } else { if c < 89 { 178 } else { 136 } } } } } } else { if c < 105 { if c < 97 { if c < 93 { if c < 91 { 141 } else { if c < 92 { 201 } else { 64 } } } else { if c < 95 { if c < 94 { 153 } else { 191 } } else { if c < 96 { 52 } else { 161 } } } } else { if c < 101 { if c < 99 { if c < 98 { 93 } else { 199 } } else { if c < 100 { 73 } else { 218 } } } else { if c < 103 { if c < 102 { 62 } else { 156 } } else { if c < 104 { 79 } else { 150 } } } } } else { if c < 113 { if c < 109 { if c < 107 { if c < 106 { 22 } else { 222 } } else { if c < 108 { 130 } else { 174 } } } else { if c < 111 { if c < 110 { 100 } else { 179 } } else { if c < 112 { 142 } else { 53 } } } } else { if c < 117 { if c < 115 { if c < 114 { 94 } else { 74 } } else { if c < 116 { 151 } else { 131 } } } else { if c < 119 { if c < 118 { 180 } else { 54 } } else { if c < 120 { 75 } else { 76 } } } } } } } } else { if c < 182 { if c < 151 { if c < 136 { if c < 128 { if c < 124 { if c < 122 { 85 } else { if c < 123 { 84 } else { 12 } } } else { if c < 126 { if c < 125 { 83 } else { 189 } } else { if c < 127 { 11 } else { 38 } } } } else { if c < 132 { if c < 130 { if c < 129 { 214 } else { 82 } } else { if c < 131 { 41 } else { 50 } } } else { if c < 134 { if c < 133 { 112 } else { 188 } } else { if c < 135 { 1 } else { 34 } } } } } else { if c < 143 { if c < 139 { if c < 137 { 89 } else { if c < 138 { 10 } else { 159 } } } else { if c < 141 { if c < 140 { 103 } else { 37 } } else { if c < 142 { 118 } else { 226 } } } } else { if c < 147 { if c < 145 { if c < 144 { 213 } else { 147 } } else { if c < 146 { 163 } else { 81 } } } else { if c < 149 { if c < 148 { 96 } else { 56 } } else { if c < 150 { 40 } else { 91 } } } } } } else { if c < 166 { if c < 158 { if c < 154 { if c < 152 { -1 } else { if c < 153 { 49 } else { 111 } } } else { if c < 156 { if c < 155 { 184 } else { 123 } } else { if c < 157 { 67 } else { 15 } } } } else { if c < 162 { if c < 160 { if c < 159 { 187 } else { 197 } } else { if c < 161 { 0 } else { 47 } } } else { if c < 164 { if c < 163 { 6 } else { 19 } } else { if c < 165 { 33 } else { 194 } } } } } else { if c < 174 { if c < 170 { if c < 168 { if c < 167 { 88 } else { 229 } } else { if c < 169 { 9 } else { 71 } } } else { if c < 172 { if c < 171 { 109 } else { 28 } } else { if c < 173 { 203 } else { 158 } } } } else { if c < 178 { if c < 176 { if c < 175 { 102 } else { 182 } } else { if c < 177 { 216 } else { 36 } } } else { if c < 180 { if c < 179 { 165 } else { 125 } } else { if c < 181 { 231 } else { 205 } } } } } } } else { if c < 212 { if c < 197 { if c < 189 { if c < 185 { if c < 183 { 117 } else { if c < 184 { 225 } else { 115 } } } else { if c < 187 { if c < 186 { 121 } else { 212 } } else { if c < 188 { 60 } else { 209 } } } } else { if c < 193 { if c < 191 { if c < 190 { 238 } else { 146 } } else { if c < 192 { 169 } else { 65 } } } else { if c < 195 { if c < 194 { 154 } else { 162 } } else { if c < 196 { 219 } else { 80 } } } } } else { if c < 204 { if c < 200 { if c < 198 { 223 } else { if c < 199 { 175 } else { 95 } } } else { if c < 202 { if c < 201 { 132 } else { 55 } } else { if c < 203 { 77 } else { 13 } } } } else { if c < 208 { if c < 206 { if c < 205 { 39 } else { 42 } } else { if c < 207 { 113 } else { 90 } } } else { if c < 210 { if c < 209 { 104 } else { 119 } } else { if c < 211 { 148 } else { 57 } } } } } } else { if c < 227 { if c < 219 { if c < 215 { if c < 213 { -1 } else { if c < 214 { 185 } else { 68 } } } else { if c < 217 { if c < 216 { 48 } else { 20 } } else { if c < 218 { 195 } else { 110 } } } } else { if c < 223 { if c < 221 { if c < 220 { 29 } else { 183 } } else { if c < 222 { 126 } else { 206 } } } else { if c < 225 { if c < 224 { 122 } else { 210 } } else { if c < 226 { 239 } else { 66 } } } } } else { if c < 235 { if c < 231 { if c < 229 { if c < 228 { 220 } else { 133 } } else { if c < 230 { 14 } else { 43 } } } else { if c < 233 { if c < 232 { 105 } else { 58 } } else { if c < 234 { 186 } else { 196 } } } } else { if c < 239 { if c < 237 { if c < 236 { 127 } else { 207 } } else { if c < 238 { 240 } else { 44 } } } else { if c < 241 { if c < 240 { 106 } else { 128 } } else { if c < 242 { 45 } else { 46 } } } } } } } }
}

/// The cyclic window of a4 that starts at `p`, read as a base-3 number.
spec fn a4_window_code(p: int) -> int {
    a4_at((p + 0) % 241) + 3 * (a4_at((p + 1) % 241) + 3 * (a4_at((p + 2) % 241) + 3 * (a4_at((p + 3) % 241) + 3 * (a4_at((p + 4) % 241)))))
}

#[verifier::rlimit(60)]
proof fn lemma_a4_table_0()
    ensures
        forall|i: int| 0 <= i < 64 ==> a4_window_table(#[trigger] a4_window_code(i)) == i,
{
    assert forall|i: int| 0 <= i < 64 implies a4_window_table(#[trigger] a4_window_code(i)) == i by {
        if i < 32 { if i < 16 { if i < 8 { if i < 4 { if i < 2 { if i < 1 { {} } else { {} } } else { if i < 3 { {} } else { {} } } } else { if i < 6 { if i < 5 { {} } else { {} } } else { if i < 7 { {} } else { {} } } } } else { if i < 12 { if i < 10 { if i < 9 { {} } else { {} } } else { if i < 11 { {} } else { {} } } } else { if i < 14 { if i < 13 { {} } else { {} } } else { if i < 15 { {} } else { {} } } } } } else { if i < 24 { if i < 20 { if i < 18 { if i < 17 { {} } else { {} } } else { if i < 19 { {} } else { {} } } } else { if i < 22 { if i < 21 { {} } else { {} } } else { if i < 23 { {} } else { {} } } } } else { if i < 28 { if i < 26 { if i < 25 { {} } else { {} } } else { if i < 27 { {} } else { {} } } } else { if i < 30 { if i < 29 { {} } else { {} } } else { if i < 31 { {} } else { {} } } } } } } else { if i < 48 { if i < 40 { if i < 36 { if i < 34 { if i < 33 { {} } else { {} } } else { if i < 35 { {} } else { {} } } } else { if i < 38 { if i < 37 { {} } else { {} } } else { if i < 39 { {} } else { {} } } } } else { if i < 44 { if i < 42 { if i < 41 { {} } else { {} } } else { if i < 43 { {} } else { {} } } } else { if i < 46 { if i < 45 { {} } else { {} } } else { if i < 47 { {} } else { {} } } } } } else { if i < 56 { if i < 52 { if i < 50 { if i < 49 { {} } else { {} } } else { if i < 51 { {} } else { {} } } } else { if i < 54 { if i < 53 { {} } else { {} } } else { if i < 55 { {} } else { {} } } } } else { if i < 60 { if i < 58 { if i < 57 { {} } else { {} } } else { if i < 59 { {} } else { {} } } } else { if i < 62 { if i < 61 { {} } else { {} } } else { if i < 63 { {} } else { {} } } } } } }
    }
}

#[verifier::rlimit(60)]
proof fn lemma_a4_table_64()
    ensures
        forall|i: int| 64 <= i < 128 ==> a4_window_table(#[trigger] a4_window_code(i)) == i,
{
    assert forall|i: int| 64 <= i < 128 implies a4_window_table(#[trigger] a4_window_code(i)) == i by {
        if i < 96 { if i < 80 { if i < 72 { if i < 68 { if i < 66 { if i < 65 { {} } else { {} } } else { if i < 67 { {} } else { {} } } } else { if i < 70 { if i < 69 { {} } else { {} } } else { if i < 71 { {} } else { {} } } } } else { if i < 76 { if i < 74 { if i < 73 { {} } else { {} } } else { if i < 75 { {} } else { {} } } } else { if i < 78 { if i < 77 { {} } else { {} } } else { if i < 79 { {} } else { {} } } } } } else { if i < 88 { if i < 84 { if i < 82 { if i < 81 { {} } else { {} } } else { if i < 83 { {} } else { {} } } } else { if i < 86 { if i < 85 { {} } else { {} } } else { if i < 87 { {} } else { {} } } } } else { if i < 92 { if i < 90 { if i < 89 { {} } else { {} } } else { if i < 91 { {} } else { {} } } } else { if i < 94 { if i < 93 { {} } else { {} } } else { if i < 95 { {} } else { {} } } } } } } else { if i < 112 { if i < 104 { if i < 100 { if i < 98 { if i < 97 { {} } else { {} } } else { if i < 99 { {} } else { {} } } } else { if i < 102 { if i < 101 { {} } else { {} } } else { if i < 103 { {} } else { {} } } } } else { if i < 108 { if i < 106 { if i < 105 { {} } else { {} } } else { if i < 107 { {} } else { {} } } } else { if i < 110 { if i < 109 { {} } else { {} } } else { if i < 111 { {} } else { {} } } } } } else { if i < 120 { if i < 116 { if i < 114 { if i < 113 { {} } else { {} } } else { if i < 115 { {} } else { {} } } } else { if i < 118 { if i < 117 { {} } else { {} } } else { if i < 119 { {} } else { {} } } } } else { if i < 124 { if i < 122 { if i < 121 { {} } else { {} } } else { if i < 123 { {} } else { {} } } } else { if i < 126 { if i < 125 { {} } else { {} } } else { if i < 127 { {} } else { {} } } } } } }
    }
}

#[verifier::rlimit(60)]
proof fn lemma_a4_table_128()
    ensures
        forall|i: int| 128 <= i < 192 ==> a4_window_table(#[trigger] a4_window_code(i)) == i,
{
    assert forall|i: int| 128 <= i < 192 implies a4_window_table(#[trigger] a4_window_code(i)) == i by {
        if i < 160 { if i < 144 { if i < 136 { if i < 132 { if i < 130 { if i < 129 { {} } else { {} } } else { if i < 131 { {} } else { {} } } } else { if i < 134 { if i < 133 { {} } else { {} } } else { if i < 135 { {} } else { {} } } } } else { if i < 140 { if i < 138 { if i < 137 { {} } else { {} } } else { if i < 139 { {} } else { {} } } } else { if i < 142 { if i < 141 { {} } else { {} } } else { if i < 143 { {} } else { {} } } } } } else { if i < 152 { if i < 148 { if i < 146 { if i < 145 { {} } else { {} } } else { if i < 147 { {} } else { {} } } } else { if i < 150 { if i < 149 { {} } else { {} } } else { if i < 151 { {} } else { {} } } } } else { if i < 156 { if i < 154 { if i < 153 { {} } else { {} } } else { if i < 155 { {} } else { {} } } } else { if i < 158 { if i < 157 { {} } else { {} } } else { if i < 159 { {} } else { {} } } } } } } else { if i < 176 { if i < 168 { if i < 164 { if i < 162 { if i < 161 { {} } else { {} } } else { if i < 163 { {} } else { {} } } } else { if i < 166 { if i < 165 { {} } else { {} } } else { if i < 167 { {} } else { {} } } } } else { if i < 172 { if i < 170 { if i < 169 { {} } else { {} } } else { if i < 171 { {} } else { {} } } } else { if i < 174 { if i < 173 { {} } else { {} } } else { if i < 175 { {} } else { {} } } } } } else { if i < 184 { if i < 180 { if i < 178 { if i < 177 { {} } else { {} } } else { if i < 179 { {} } else { {} } } } else { if i < 182 { if i < 181 { {} } else { {} } } else { if i < 183 { {} } else { {} } } } } else { if i < 188 { if i < 186 { if i < 185 { {} } else { {} } } else { if i < 187 { {} } else { {} } } } else { if i < 190 { if i < 189 { {} } else { {} } } else { if i < 191 { {} } else { {} } } } } } }
    }
}

#[verifier::rlimit(60)]
proof fn lemma_a4_table_192()
    ensures
        forall|i: int| 192 <= i < 241 ==> a4_window_table(#[trigger] a4_window_code(i)) == i,
{
    assert forall|i: int| 192 <= i < 241 implies a4_window_table(#[trigger] a4_window_code(i)) == i by {
        if i < 216 { if i < 204 { if i < 198 { if i < 195 { if i < 193 { {} } else { if i < 194 { {} } else { {} } } } else { if i < 196 { {} } else { if i < 197 { {} } else { {} } } } } else { if i < 201 { if i < 199 { {} } else { if i < 200 { {} } else { {} } } } else { if i < 202 { {} } else { if i < 203 { {} } else { {} } } } } } else { if i < 210 { if i < 207 { if i < 205 { {} } else { if i < 206 { {} } else { {} } } } else { if i < 208 { {} } else { if i < 209 { {} } else { {} } } } } else { if i < 213 { if i < 211 { {} } else { if i < 212 { {} } else { {} } } } else { if i < 214 { {} } else { if i < 215 { {} } else { {} } } } } } } else { if i < 228 { if i < 222 { if i < 219 { if i < 217 { {} } else { if i < 218 { {} } else { {} } } } else { if i < 220 { {} } else { if i < 221 { {} } else { {} } } } } else { if i < 225 { if i < 223 { {} } else { if i < 224 { {} } else { {} } } } else { if i < 226 { {} } else { if i < 227 { {} } else { {} } } } } } else { if i < 234 { if i < 231 { if i < 229 { {} } else { if i < 230 { {} } else { {} } } } else { if i < 232 { {} } else { if i < 233 { {} } else { {} } } } } else { if i < 237 { if i < 235 { {} } else { if i < 236 { {} } else { {} } } } else { if i < 239 { if i < 238 { {} } else { {} } } else { if i < 240 { {} } else { {} } } } } } }
    }
}

proof fn lemma_a4_table()
    ensures
        forall|i: int| 0 <= i < 241 ==> a4_window_table(#[trigger] a4_window_code(i)) == i,
{
    lemma_a4_table_0();
    lemma_a4_table_64();
    lemma_a4_table_128();
    lemma_a4_table_192();
}

/// Two cyclic windows of a4 with the same symbols start at the same position.
pub proof fn lemma_a4_window_unique(p: int, q: int)
    requires
        0 <= p < 241,
        0 <= q < 241,
        forall|j: int| 0 <= j < 5 ==> #[trigger] a4_at((p + j) % 241) == a4_at((q + j) % 241),
    ensures
        p == q,
{
    assert(a4_at((p + 0) % 241) == a4_at((q + 0) % 241));
    assert(a4_at((p + 1) % 241) == a4_at((q + 1) % 241));
    assert(a4_at((p + 2) % 241) == a4_at((q + 2) % 241));
    assert(a4_at((p + 3) % 241) == a4_at((q + 3) % 241));
    assert(a4_at((p + 4) % 241) == a4_at((q + 4) % 241));
    lemma_a4_table();
    assert(a4_window_code(p) == a4_window_code(q));
}

/// Every symbol of a4 lies in its alphabet.
pub proof fn lemma_a4_range(i: int)
    ensures
        0 <= a4_at(i) < 3,
{
}

/// Symbol `i` of the fourth secondary sequence (ternary, length 241).
pub fn a4_value(i: usize) -> (v: i8)
    ensures
        v == a4_at(i as int),
{
    if i < 120 { if i < 60 { if i < 30 { if i < 15 { if i < 7 { if i < 3 { if i < 1 { 1i8 } else { 2i8 } } else { if i < 5 { if i < 4 { 2i8 } else { 1i8 } } else { if i < 6 { 1i8 } else { 0i8 } } } } else { if i < 11 { if i < 9 { 0i8 } else { if i < 10 { 0i8 } else { 2i8 } } } else { if i < 13 { 0i8 } else { if i < 14 { 2i8 } else { 1i8 } } } } } else { if i < 22 { if i < 18 { if i < 16 { 1i8 } else { if i < 17 { 1i8 } else { 2i8 } } } else { if i < 20 { if i < 19 { 2i8 } else { 1i8 } } else { 0i8 } } } else { if i < 26 { if i < 24 { if i < 23 { 0i8 } else { 2i8 } } else { if i < 25 { 2i8 } else { 0i8 } } } else { if i < 28 { if i < 27 { 1i8 } else { 0i8 } } else { 0i8 } } } } } else { if i < 45 { if i < 37 { if i < 33 { if i < 31 { 1i8 } else { if i < 32 { 0i8 } else { 2i8 } } } else { if i < 35 { if i < 34 { 2i8 } else { 0i8 } } else { 0i8 } } } else { if i < 41 { if i < 39 { if i < 38 { 2i8 } else { 1i8 } } else { if i < 40 { 0i8 } else { 2i8 } } } else { if i < 43 { 1i8 } else { if i < 44 { 2i8 } else { 1i8 } } } } } else { if i < 52 { if i < 48 { if i < 46 { 1i8 } else { 2i8 } } else { if i < 50 { 2i8 } else { if i < 51 { 2i8 } else { 1i8 } } } } else { if i < 56 { if i < 54 { if i < 53 { 2i8 } else { 1i8 } } else { if i < 55 { 1i8 } else { 0i8 } } } else { if i < 58 { 1i8 } else { if i < 59 { 1i8 } else { 2i8 } } } } } } } else { if i < 90 { if i < 75 { if i < 67 { if i < 63 { if i < 61 { 1i8 } else { 2i8 } } else { if i < 65 { if i < 64 { 0i8 } else { 2i8 } } else { if i < 66 { 0i8 } else { 1i8 } } } } else { if i < 71 { if i < 69 { if i < 68 { 0i8 } else { 1i8 } } else { 2i8 } } else { if i < 73 { if i < 72 { 1i8 } else { 2i8 } } else { 0i8 } } } } else { if i < 82 { if i < 78 { if i < 76 { 2i8 } else { if i < 77 { 0i8 } else { 1i8 } } } else { if i < 80 { 1i8 } else { if i < 81 { 1i8 } else { 2i8 } } } } else { if i < 86 { if i < 84 { if i < 83 { 0i8 } else { 1i8 } } else { if i < 85 { 2i8 } else { 1i8 } } } else { 1i8 } } } } else { if i < 105 { if i < 97 { if i < 93 { if i < 91 { 0i8 } else { if i < 92 { 0i8 } else { 2i8 } } } else { if i < 95 { if i < 94 { 1i8 } else { 2i8 } } else { if i < 96 { 1i8 } else { 0i8 } } } } else { if i < 101 { if i < 99 { 1i8 } else { if i < 100 { 2i8 } else { 1i8 } } } else { if i < 103 { 0i8 } else { 1i8 } } } } else { if i < 112 { if i < 108 { if i < 106 { 0i8 } else { if i < 107 { 2i8 } else { 1i8 } } } else { if i < 110 { 2i8 } else { if i < 111 { 2i8 } else { 0i8 } } } } else { if i < 116 { if i < 114 { if i < 113 { 0i8 } else { 2i8 } } else { if i < 115 { 2i8 } else { 1i8 } } } else { if i < 118 { if i < 117 { 1i8 } else { 2i8 } } else { if i < 119 { 0i8 } else { 2i8 } } } } } } } } else { if i < 180 { if i < 150 { if i < 135 { if i < 127 { if i < 123 { if i < 121 { 0i8 } else { if i < 122 { 2i8 } else { 1i8 } } } else { if i < 125 { if i < 124 { 2i8 } else { 0i8 } } else { 2i8 } } } else { if i < 131 { if i < 129 { if i < 128 { 1i8 } else { 0i8 } } else { 2i8 } } else { if i < 133 { 2i8 } else { if i < 134 { 0i8 } else { 1i8 } } } } } else { if i < 142 { if i < 138 { if i < 136 { 1i8 } else { 2i8 } } else { if i < 140 { 0i8 } else { if i < 141 { 1i8 } else { 0i8 } } } } else { if i < 146 { if i < 144 { if i < 143 { 0i8 } else { 1i8 } } else { if i < 145 { 0i8 } else { 1i8 } } } else { if i < 148 { if i < 147 { 1i8 } else { 0i8 } } else { if i < 149 { 0i8 } else { 1i8 } } } } } } else { if i < 165 { if i < 157 { if i < 153 { if i < 151 { 2i8 } else { if i < 152 { 1i8 } else { 2i8 } } } else { if i < 155 { if i < 154 { 0i8 } else { 1i8 } } else { if i < 156 { 1i8 } else { 0i8 } } } } else { if i < 161 { if i < 159 { if i < 158 { 1i8 } else { 2i8 } } else { if i < 160 { 0i8 } else { 1i8 } } } else { if i < 163 { if i < 162 { 0i8 } else { 2i8 } } else { if i < 164 { 1i8 } else { 0i8 } } } } } else { if i < 172 { if i < 168 { if i < 166 { 1i8 } else { if i < 167 { 2i8 } else { 1i8 } } } else { if i < 170 { if i < 169 { 0i8 } else { 2i8 } } else { 0i8 } } } else { if i < 176 { if i < 174 { if i < 173 { 1i8 } else { 2i8 } } else { 0i8 } } else { if i < 178 { if i < 177 { 0i8 } else { 1i8 } } else { if i < 179 { 1i8 } else { 2i8 } } } } } } } else { if i < 210 { if i < 195 { if i < 187 { if i < 183 { if i < 181 { 0i8 } else { if i < 182 { 0i8 } else { 1i8 } } } else { if i < 185 { 1i8 } else { if i < 186 { 0i8 } else { 2i8 } } } } else { if i < 191 { if i < 189 { if i < 188 { 2i8 } else { 1i8 } } else { 2i8 } } else { if i < 193 { 1i8 } else { if i < 194 { 1i8 } else { 0i8 } } } } } else { if i < 202 { if i < 198 { if i < 196 { 1i8 } else { 0i8 } } else { if i < 200 { 2i8 } else { if i < 201 { 2i8 } else { 1i8 } } } } else { if i < 206 { if i < 204 { if i < 203 { 0i8 } else { 1i8 } } else { if i < 205 { 0i8 } else { 1i8 } } } else { if i < 208 { if i < 207 { 0i8 } else { 2i8 } } else { if i < 209 { 0i8 } else { 2i8 } } } } } } else { if i < 225 { if i < 217 { if i < 213 { if i < 211 { 2i8 } else { if i < 212 { 2i8 } else { 0i8 } } } else { if i < 215 { 2i8 } else { if i < 216 { 0i8 } else { 2i8 } } } } else { if i < 221 { if i < 219 { 1i8 } else { if i < 220 { 0i8 } else { 2i8 } } } else { if i < 223 { if i < 222 { 0i8 } else { 1i8 } } else { 2i8 } } } } else { if i < 233 { if i < 229 { if i < 227 { if i < 226 { 0i8 } else { 1i8 } } else { if i < 228 { 2i8 } else { 0i8 } } } else { if i < 231 { if i < 230 { 2i8 } else { 1i8 } } else { 0i8 } } } else { if i < 237 { if i < 235 { if i < 234 { 2i8 } else { 0i8 } } else { if i < 236 { 2i8 } else { 0i8 } } } else { 0i8 } } } } } }
}

} // verus!
